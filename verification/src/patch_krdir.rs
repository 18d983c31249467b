//! KrDiff patches: patches of a whole directory whose covers wrap round the old
//! data.
use crate::combined::{
    capacity_of, cut_files, cut_up, joined, sizes_fit, sum_of, CombinedStream,
};
use crate::compression_utils::{clip_of, get_clip_stream, held_plain};
use crate::error::PatchError;
use crate::kr_format::{
    covers_compressed, hd13_of, hd19_of, head_lead_of, parse_hd13, parse_hd19, KrCover, KrFileEntry,
    KrFileModel, KrHd13, KrHd13Model, KrHd19, KrHd19Model,
};
use crate::parser::{read_exact, ByteSource, ByteStream};
use crate::rle::min;
use crate::streams::SeekFrom;
use crate::varint::{as_signed, as_unsigned, to_signed, to_unsigned};
use vstd::prelude::*;
use vstd::slice::slice_subrange;

verus! {

/// The most bytes that are copied at once.
pub const COPY_LEN: u64 = 0x1_0000;

/// What comes of copying `n` bytes, piece by piece, out of `available` bytes into
/// `room` for them. A piece is read whole before it is written.
pub open spec fn copied(available: int, n: int, room: int) -> Result<(), PatchError>
    decreases n,
{
    if n <= 0 {
        Ok(())
    } else {
        let piece = min(n, COPY_LEN as int);
        if piece > available {
            Err(PatchError::UnexpectedEof)
        } else if piece > room {
            Err(PatchError::WriteZero)
        } else {
            copied(available - piece, n - piece, room - piece)
        }
    }
}

/// Copying succeeds just where there are the bytes and the room for them.
pub proof fn law_copied_if_room(available: int, n: int, room: int)
    requires
        0 <= available,
        0 <= room,
    ensures
        copied(available, n, room) is Ok <==> (n <= available && n <= room) || n <= 0,
    decreases n,
{
    if n > 0 {
        let piece = min(n, COPY_LEN as int);
        if piece <= available && piece <= room {
            law_copied_if_room(available - piece, n - piece, room - piece);
        }
    }
}

/// How many of `n` bytes are written when they are copied, piece by piece: all, or the
/// pieces before the one that is not there, or as many as there is room for.
pub open spec fn copied_len(available: int, n: int, room: int) -> int
    decreases n,
{
    if n <= 0 {
        0
    } else {
        let piece = min(n, COPY_LEN as int);
        if piece > available {
            0
        } else if piece > room {
            room
        } else {
            piece + copied_len(available - piece, n - piece, room - piece)
        }
    }
}

/// What is written is never more than there is, than is asked for and than there is
/// room for, and all that is asked for where copying succeeds.
pub proof fn law_copied_len(available: int, n: int, room: int)
    requires
        0 <= available,
        0 <= n,
        0 <= room,
    ensures
        0 <= copied_len(available, n, room) <= available,
        copied_len(available, n, room) <= n,
        copied_len(available, n, room) <= room,
        copied(available, n, room) is Ok ==> copied_len(available, n, room) == n,
    decreases n,
{
    if n > 0 {
        let piece = min(n, COPY_LEN as int);
        if piece <= available && piece <= room {
            law_copied_len(available - piece, n - piece, room - piece);
        }
    }
}

/// Appends `bytes` to `out` as far as `capacity` allows. Tells whether it does.
fn write_piece(out: &mut Vec<u8>, bytes: &Vec<u8>, capacity: u64) -> (r: Result<(), PatchError>)
    requires
        old(out)@.len() <= capacity,
    ensures
        ({
            let room = capacity - old(out)@.len();
            match r {
                Ok(_) => bytes@.len() <= room && final(out)@ == old(out)@ + bytes@,
                Err(e) => {
                    &&& e == PatchError::WriteZero
                    &&& bytes@.len() > room
                    &&& final(out)@ == old(out)@ + bytes@.take(room)
                },
            }
        }),
{
    let room: u64 = capacity - out.len() as u64;
    let ghost before = out@;
    if bytes.len() as u64 > room {
        let chunk = slice_subrange(bytes.as_slice(), 0, room as usize);
        out.extend_from_slice(chunk);
        assert(chunk@ =~= bytes@.take(room as int));
        assert(out@ =~= before + chunk@);
        return Err(PatchError::WriteZero);
    }
    out.extend_from_slice(bytes.as_slice());
    assert(out@ =~= before + bytes@);
    Ok(())
}

/// Copies `n` bytes from `src` onto the end of `out`, which may not grow longer
/// than `capacity`.
pub fn copy_n<S: ByteSource>(src: &mut S, out: &mut Vec<u8>, n: u64, capacity: u64) -> (r: Result<
    (),
    PatchError,
>)
    requires
        old(out)@.len() <= capacity,
    ensures
        final(src).base() == old(src).base(),
        final(src).fallible() == old(src).fallible(),
        final(out)@.len() <= capacity,
        ({
            let rest = old(src).rest();
            let room = capacity - old(out)@.len();
            let want = copied(rest.len() as int, n as int, room);
            let written = rest.take(copied_len(rest.len() as int, n as int, room));
            match r {
                Ok(_) => {
                    &&& want is Ok
                    &&& n <= rest.len()
                    &&& final(src).rest() == rest.skip(n as int)
                    &&& final(out)@ == old(out)@ + rest.take(n as int)
                },
                Err(e) => {
                    ||| want == Err::<(), PatchError>(e) && final(out)@ == old(out)@ + written
                    ||| {
                        &&& e == PatchError::Decoder && old(src).fallible()
                        &&& old(out)@.is_prefix_of(final(out)@)
                        &&& final(out)@.is_prefix_of(old(out)@ + written)
                    }
                },
            }
        }),
{
    let ghost rest = src.rest();
    let ghost before = out@;
    let ghost room = capacity - before.len();
    let mut left: u64 = n;
    proof {
        law_copied_len(rest.len() as int, n as int, room);
        assert(rest.skip(0) =~= rest);
        assert(before + rest.take(0) =~= before);
    }
    while left > 0
        invariant
            left <= n,
            rest == old(src).rest(),
            before == old(out)@,
            room == capacity - before.len(),
            src.base() == old(src).base(),
            src.fallible() == old(src).fallible(),
            n - left <= rest.len(),
            n - left <= room,
            src.rest() == rest.skip(n - left),
            out@ == before + rest.take(n - left),
            copied(rest.len() as int, n as int, room) == copied(
                rest.len() - (n - left),
                left as int,
                room - (n - left),
            ),
            copied_len(rest.len() as int, n as int, room) == (n - left) + copied_len(
                rest.len() - (n - left),
                left as int,
                room - (n - left),
            ),
            copied_len(rest.len() as int, n as int, room) <= rest.len(),
        decreases left,
    {
        let piece: u64 = if left < COPY_LEN {
            left
        } else {
            COPY_LEN
        };
        let ghost k = n - left;
        proof {
            law_copied_len(rest.len() - k, left as int, room - k);
            let written = rest.take(copied_len(rest.len() as int, n as int, room));
            assert(before.is_prefix_of(out@));
            assert(out@.is_prefix_of(before + written));
        }
        let bytes = read_exact(src, piece)?;
        assert(bytes.deep_view() =~= bytes@);
        proof {
            assert(rest.skip(k).skip(piece as int) =~= rest.skip(k + piece));
            assert(before + rest.take(k) + rest.skip(k).take(piece as int) =~= before + rest.take(
                k + piece,
            ));
            if piece > room - k {
                assert(before + rest.take(k) + bytes@.take(room - k) =~= before + rest.take(room));
            }
        }
        write_piece(out, &bytes, capacity)?;
        left = left - piece;
    }
    Ok(())
}

/// Copies `n` bytes of the old files from where they stand onto the end of `out`,
/// which may not grow longer than `capacity`.
fn copy_old(src: &mut CombinedStream, out: &mut Vec<u8>, n: u64, capacity: u64) -> (r: Result<
    (),
    PatchError,
>)
    requires
        old(src).valid(),
        old(out)@.len() <= capacity,
    ensures
        final(src).valid(),
        final(src).streams == old(src).streams,
        final(src).total_length == old(src).total_length,
        final(out)@.len() <= capacity,
        ({
            let pos = old(src).position as int;
            let available = old(src).total_length - pos;
            let room = capacity - old(out)@.len();
            let want = copied(available, n as int, room);
            match r {
                Ok(_) => {
                    &&& want is Ok
                    &&& pos + n <= old(src).bytes().len()
                    &&& final(out)@ == old(out)@ + old(src).bytes().subrange(pos, pos + n)
                },
                Err(e) => {
                    &&& want == Err::<(), PatchError>(e)
                    &&& final(out)@ == old(out)@ + old(src).bytes().subrange(
                        pos,
                        pos + copied_len(available, n as int, room),
                    )
                },
            }
        }),
{
    let ghost all = src.bytes();
    let ghost pos = src.position as int;
    let ghost before = out@;
    let ghost room = capacity - before.len();
    let mut left: u64 = n;
    assert(before + all.subrange(pos, pos) =~= before);
    while left > 0
        invariant
            src.valid(),
            src.streams == old(src).streams,
            src.total_length == old(src).total_length,
            all == src.bytes(),
            pos == old(src).position,
            before == old(out)@,
            room == capacity - before.len(),
            left <= n,
            src.position == pos + (n - left),
            n - left <= room,
            out@ == before + all.subrange(pos, pos + (n - left)),
            copied(src.total_length - pos, n as int, room) == copied(
                src.total_length - pos - (n - left),
                left as int,
                room - (n - left),
            ),
            copied_len(src.total_length - pos, n as int, room) == (n - left) + copied_len(
                src.total_length - pos - (n - left),
                left as int,
                room - (n - left),
            ),
        decreases left,
    {
        let piece: u64 = if left < COPY_LEN {
            left
        } else {
            COPY_LEN
        };
        let ghost k = n - left;
        let mut bytes: Vec<u8> = Vec::new();
        let got = src.read(piece as usize, &mut bytes);
        if (got as u64) < piece {
            return Err(PatchError::UnexpectedEof);
        }
        proof {
            assert(bytes@ =~= all.subrange(pos + k, pos + k + piece));
            assert(before + all.subrange(pos, pos + k) + bytes@ =~= before + all.subrange(
                pos,
                pos + k + piece,
            ));
            if piece > room - k {
                assert(before + all.subrange(pos, pos + k) + bytes@.take(room - k) =~= before
                    + all.subrange(pos, pos + room));
            }
        }
        write_piece(out, &bytes, capacity)?;
        left = left - piece;
    }
    Ok(())
}

/// The `i64` that the sum of two of them wraps round to.
pub open spec fn wrapped_signed(v: int) -> i64 {
    if v > i64::MAX {
        (v - 0x1_0000_0000_0000_0000) as i64
    } else if v < i64::MIN {
        (v + 0x1_0000_0000_0000_0000) as i64
    } else {
        v as i64
    }
}

/// A place in old data of `size` bytes, counted round it: one behind the end from
/// its start, and one before the start from its end.
pub open spec fn round_place(place: i64, size: int) -> i64 {
    if place > size {
        ((place - 1) % size + 1) as i64
    } else if place < 0 {
        (place as int % size) as i64
    } else {
        place
    }
}

/// A place that is counted round the old data lies in it or at its end, a whole
/// number of times its size away.
pub proof fn law_round_place(place: i64, size: int)
    requires
        0 < size <= i64::MAX,
    ensures
        0 <= round_place(place, size) <= size,
        (round_place(place, size) - place) % size == 0,
        0 <= place <= size ==> round_place(place, size) == place,
{
    if place > size {
        let q = (place - 1) / size;
        vstd::arithmetic::div_mod::lemma_fundamental_div_mod(place - 1, size);
        assert(round_place(place, size) - place == (-q) * size) by (nonlinear_arith)
            requires
                round_place(place, size) == (place - 1) % size + 1,
                place - 1 == size * q + (place - 1) % size,
        ;
        vstd::arithmetic::div_mod::lemma_mod_multiples_basic(-q, size);
    } else if place < 0 {
        let q = place as int / size;
        vstd::arithmetic::div_mod::lemma_fundamental_div_mod(place as int, size);
        assert(round_place(place, size) - place == (-q) * size) by (nonlinear_arith)
            requires
                round_place(place, size) == (place as int) % size,
                place as int == size * q + (place as int) % size,
        ;
        vstd::arithmetic::div_mod::lemma_mod_multiples_basic(-q, size);
    } else {
        assert(0int % size == 0) by (nonlinear_arith)
            requires
                size > 0,
        ;
    }
}

/// Counts a place round old data of `size` bytes.
fn wrap_place(place: i64, size: i64) -> (r: i64)
    requires
        size > 0,
    ensures
        r == round_place(place, size as int),
{
    proof {
        law_round_place(place, size as int);
    }
    if place > size {
        let behind: i64 = place - 1;
        behind % size + 1
    } else if place < 0 {
        // The rest of a division that rounds down.
        let p: i128 = place as i128;
        let s: i128 = size as i128;
        let whole: i128 = (-(p + 1)) / s + 1;
        proof {
            lemma_rest_below_zero(p as int, s as int, whole as int);
        }
        (p + whole * s) as i64
    } else {
        place
    }
}

/// A negative number with the least multiple that makes it none is its rest.
proof fn lemma_rest_below_zero(p: int, s: int, whole: int)
    requires
        i64::MIN <= p < 0,
        0 < s <= i64::MAX,
        whole == (-(p + 1)) / s + 1,
    ensures
        p + whole * s == p % s,
        0 <= whole * s <= 0x1_0000_0000_0000_0000,
{
    let m = -(p + 1);
    vstd::arithmetic::div_mod::lemma_fundamental_div_mod(m, s);
    assert(p + whole * s == s - 1 - m % s) by (nonlinear_arith)
        requires
            m == -(p + 1),
            m == s * (m / s) + m % s,
            whole == m / s + 1,
    ;
    assert(0 <= p + whole * s < s);
    assert(p == -whole * s + (p + whole * s)) by (nonlinear_arith);
    vstd::arithmetic::div_mod::lemma_fundamental_div_mod_converse(p, s, -whole, p + whole * s);
}

/// Where a patch stands: where it reads the old data next, the new bytes not yet
/// used, the new data so far, and how long it was behind each cover.
pub struct KrModel {
    pub read_pos: i64,
    pub data: Seq<u8>,
    pub out: Seq<u8>,
    pub reports: Seq<i64>,
}

/// Where a patch cannot go on: the reason, the new data so far, and how long it was
/// behind each cover before.
pub struct KrStop {
    pub error: PatchError,
    pub out: Seq<u8>,
    pub reports: Seq<i64>,
}

/// The patch with `n` of the new bytes behind the new data, which has room for
/// `capacity` bytes.
pub open spec fn with_new_bytes(st: KrModel, n: int, capacity: int) -> Result<KrModel, KrStop> {
    let room = capacity - st.out.len();
    let available = st.data.len() as int;
    match copied(available, n, room) {
        Err(error) => Err(
            KrStop {
                error,
                out: st.out + st.data.take(copied_len(available, n, room)),
                reports: st.reports,
            },
        ),
        Ok(_) => Ok(
            KrModel { data: st.data.skip(n), out: st.out + st.data.take(n), ..st },
        ),
    }
}

/// The patch with `n` bytes of the old data behind the new.
pub open spec fn with_old_bytes(
    st: KrModel,
    contents: Seq<u8>,
    place: i64,
    n: int,
    capacity: int,
) -> Result<KrModel, KrStop> {
    let at = as_unsigned(place) as int;
    let room = capacity - st.out.len();
    let available = contents.len() - at;
    if n == 0 {
        Ok(st)
    } else if at > contents.len() {
        Err(
            KrStop { error: PatchError::SeekBeyondEnd, out: st.out, reports: st.reports },
        )
    } else {
        match copied(available, n, room) {
            Err(error) => Err(
                KrStop {
                    error,
                    out: st.out + contents.subrange(at, at + copied_len(available, n, room)),
                    reports: st.reports,
                },
            ),
            Ok(_) => Ok(KrModel { out: st.out + contents.subrange(at, at + n), ..st }),
        }
    }
}

/// Where a cover takes its bytes from. There is no answer where the size of the
/// old data leaves the range of an `i64`.
pub open spec fn cover_place(read_pos: i64, cover: KrCover, old_ref_size: u64) -> Option<i64> {
    let place = wrapped_signed(read_pos + cover.old_pos_delta);
    if old_ref_size > i64::MAX {
        None
    } else if old_ref_size > 0 {
        Some(round_place(place, old_ref_size as int))
    } else {
        Some(place)
    }
}

/// The patch with one more cover, and the new bytes before it.
pub open spec fn kr_cover_applied(
    st: KrModel,
    cover: KrCover,
    old_ref_size: u64,
    contents: Seq<u8>,
    capacity: int,
) -> Result<KrModel, KrStop> {
    match cover_place(st.read_pos, cover, old_ref_size) {
        None => Err(
            KrStop { error: PatchError::Malformed, out: st.out, reports: st.reports },
        ),
        Some(place) => match with_new_bytes(st, cover.new_pos_gap as int, capacity) {
            Err(e) => Err(e),
            Ok(st) => match with_old_bytes(st, contents, place, cover.length as int, capacity) {
                Err(e) => Err(e),
                Ok(st) => Ok(
                    KrModel {
                        read_pos: wrapped_signed(place + as_signed(cover.length as int)),
                        reports: st.reports.push(as_signed(st.out.len() as int)),
                        ..st
                    },
                ),
            },
        },
    }
}

/// The patch with the first `n` of some covers.
pub open spec fn kr_covers_applied(
    covers: Seq<KrCover>,
    n: int,
    old_ref_size: u64,
    contents: Seq<u8>,
    capacity: int,
    data: Seq<u8>,
) -> Result<KrModel, KrStop>
    decreases n,
{
    if n <= 0 {
        Ok(KrModel { read_pos: 0, data, out: Seq::empty(), reports: Seq::empty() })
    } else {
        match kr_covers_applied(covers, n - 1, old_ref_size, contents, capacity, data) {
            Err(e) => Err(e),
            Ok(st) => kr_cover_applied(st, covers[n - 1], old_ref_size, contents, capacity),
        }
    }
}

proof fn lemma_kr_applied_err(
    covers: Seq<KrCover>,
    i: int,
    n: int,
    old_ref_size: u64,
    contents: Seq<u8>,
    capacity: int,
    data: Seq<u8>,
)
    requires
        i <= n,
        kr_covers_applied(covers, i, old_ref_size, contents, capacity, data) is Err,
    ensures
        kr_covers_applied(covers, n, old_ref_size, contents, capacity, data) == kr_covers_applied(
            covers,
            i,
            old_ref_size,
            contents,
            capacity,
            data,
        ),
    decreases n,
{
    if i < n {
        lemma_kr_applied_err(covers, i, n - 1, old_ref_size, contents, capacity, data);
    }
}

/// The new data that some covers and new bytes make out of old data, filled up
/// with new bytes to `new_ref_size`. Beside it, how long it was behind each
/// cover.
pub open spec fn kr_patched(
    covers: Seq<KrCover>,
    old_ref_size: u64,
    new_ref_size: u64,
    contents: Seq<u8>,
    capacity: int,
    data: Seq<u8>,
) -> Result<(Seq<u8>, Seq<i64>), KrStop> {
    match kr_covers_applied(
        covers,
        covers.len() as int,
        old_ref_size,
        contents,
        capacity,
        data,
    ) {
        Err(e) => Err(e),
        Ok(st) => if st.out.len() < new_ref_size {
            match with_new_bytes(st, new_ref_size - st.out.len(), capacity) {
                Err(e) => Err(e),
                Ok(st) => Ok((st.out, st.reports)),
            }
        } else {
            Ok((st.out, st.reports))
        },
    }
}

proof fn lemma_kr_applied_bounds(
    covers: Seq<KrCover>,
    n: int,
    old_ref_size: u64,
    contents: Seq<u8>,
    capacity: int,
    data: Seq<u8>,
)
    requires
        0 <= n <= covers.len(),
        0 <= capacity,
    ensures
        kr_covers_applied(covers, n, old_ref_size, contents, capacity, data) matches Ok(st) ==> {
            &&& st.out.len() <= capacity
            &&& st.reports.len() == n
        },
    decreases n,
{
    if n > 0 {
        lemma_kr_applied_bounds(covers, n - 1, old_ref_size, contents, capacity, data);
        if let Ok(st) = kr_covers_applied(
            covers,
            n - 1,
            old_ref_size,
            contents,
            capacity,
            data,
        ) {
            let cover = covers[n - 1];
            law_copied_if_room(
                st.data.len() as int,
                cover.new_pos_gap as int,
                capacity - st.out.len(),
            );
            if let Ok(st1) = with_new_bytes(st, cover.new_pos_gap as int, capacity) {
                if let Some(place) = cover_place(st.read_pos, cover, old_ref_size) {
                    if as_unsigned(place) <= contents.len() {
                        law_copied_if_room(
                            contents.len() - as_unsigned(place),
                            cover.length as int,
                            capacity - st1.out.len(),
                        );
                    }
                }
            }
        }
    }
}

/// The new data is as long as the patch says, or longer where the covers make
/// more, and never longer than the room for it. Every cover is reported.
pub proof fn law_kr_patched_size(
    covers: Seq<KrCover>,
    old_ref_size: u64,
    new_ref_size: u64,
    contents: Seq<u8>,
    capacity: int,
    data: Seq<u8>,
)
    requires
        0 <= capacity,
    ensures
        kr_patched(covers, old_ref_size, new_ref_size, contents, capacity, data) matches Ok(
            (out, reports),
        ) ==> {
            &&& new_ref_size <= out.len() <= capacity
            &&& reports.len() == covers.len()
        },
{
    lemma_kr_applied_bounds(
        covers,
        covers.len() as int,
        old_ref_size,
        contents,
        capacity,
        data,
    );
    if let Ok(st) = kr_covers_applied(
        covers,
        covers.len() as int,
        old_ref_size,
        contents,
        capacity,
        data,
    ) {
        law_copied_if_room(
            st.data.len() as int,
            new_ref_size - st.out.len(),
            capacity - st.out.len(),
        );
    }
}

/// The new data that comes of a patch, whether it goes through or not.
pub open spec fn out_of(all: Result<(Seq<u8>, Seq<i64>), KrStop>) -> Seq<u8> {
    match all {
        Ok((out, _)) => out,
        Err(stop) => stop.out,
    }
}

/// How long the new data is behind each cover that is applied, whether the patch goes
/// through or not.
pub open spec fn reports_of_all(all: Result<(Seq<u8>, Seq<i64>), KrStop>) -> Seq<i64> {
    match all {
        Ok((_, reports)) => reports,
        Err(stop) => stop.reports,
    }
}

/// The same of a part of a patch.
pub open spec fn made_of(applied: Result<KrModel, KrStop>) -> (Seq<u8>, Seq<i64>) {
    match applied {
        Ok(st) => (st.out, st.reports),
        Err(stop) => (stop.out, stop.reports),
    }
}

proof fn lemma_kr_cover_front(
    st: KrModel,
    cover: KrCover,
    old_ref_size: u64,
    contents: Seq<u8>,
    capacity: int,
)
    ensures
        ({
            let made = made_of(kr_cover_applied(st, cover, old_ref_size, contents, capacity));
            &&& st.out.is_prefix_of(made.0)
            &&& st.reports.is_prefix_of(made.1)
            &&& cover_place(st.read_pos, cover, old_ref_size) is Some ==> made_of(
                with_new_bytes(st, cover.new_pos_gap as int, capacity),
            ).0.is_prefix_of(made.0)
        }),
{
}

/// More covers leave the new data that the first ones make as it is.
proof fn lemma_kr_front(
    covers: Seq<KrCover>,
    i: int,
    n: int,
    old_ref_size: u64,
    contents: Seq<u8>,
    capacity: int,
    data: Seq<u8>,
)
    requires
        i <= n,
    ensures
        ({
            let made_i = made_of(
                kr_covers_applied(covers, i, old_ref_size, contents, capacity, data),
            );
            let made_n = made_of(
                kr_covers_applied(covers, n, old_ref_size, contents, capacity, data),
            );
            &&& made_i.0.is_prefix_of(made_n.0)
            &&& made_i.1.is_prefix_of(made_n.1)
        }),
    decreases n,
{
    if i < n && n > 0 {
        lemma_kr_front(covers, i, n - 1, old_ref_size, contents, capacity, data);
        if let Ok(st) = kr_covers_applied(
            covers,
            n - 1,
            old_ref_size,
            contents,
            capacity,
            data,
        ) {
            lemma_kr_cover_front(st, covers[n - 1], old_ref_size, contents, capacity);
        }
    }
}

/// What the covers make is a front of all that the patch makes.
proof fn lemma_kr_front_of_all(
    covers: Seq<KrCover>,
    old_ref_size: u64,
    new_ref_size: u64,
    contents: Seq<u8>,
    capacity: int,
    data: Seq<u8>,
)
    ensures
        ({
            let applied = kr_covers_applied(
                covers,
                covers.len() as int,
                old_ref_size,
                contents,
                capacity,
                data,
            );
            let all = kr_patched(covers, old_ref_size, new_ref_size, contents, capacity, data);
            &&& made_of(applied).0.is_prefix_of(out_of(all))
            &&& made_of(applied).1.is_prefix_of(reports_of_all(all))
            &&& applied matches Ok(st) ==> st.out.len() < new_ref_size ==> made_of(
                with_new_bytes(st, new_ref_size - st.out.len(), capacity),
            ).0 == out_of(all)
        }),
{
}

/// Appends the new bytes before a cover and the bytes that it takes over to `out`,
/// and moves `read_pos` behind them.
fn apply_cover<S: ByteSource>(
    cover: KrCover,
    old_ref_size: u64,
    old_combined: &mut CombinedStream,
    new_data: &mut S,
    read_pos: &mut i64,
    out: &mut Vec<u8>,
    reports: &mut Vec<i64>,
    capacity: u64,
) -> (r: Result<(), PatchError>)
    requires
        old(old_combined).valid(),
        old(out)@.len() <= capacity,
    ensures
        final(old_combined).valid(),
        final(old_combined).streams == old(old_combined).streams,
        final(new_data).base() == old(new_data).base(),
        final(new_data).fallible() == old(new_data).fallible(),
        final(out)@.len() <= capacity,
        ({
            let st = KrModel {
                read_pos: *old(read_pos),
                data: old(new_data).rest(),
                out: old(out)@,
                reports: old(reports)@,
            };
            let want = kr_cover_applied(
                st,
                cover,
                old_ref_size,
                old(old_combined).bytes(),
                capacity as int,
            );
            match r {
                Ok(_) => want == Ok::<KrModel, KrStop>(
                    KrModel {
                        read_pos: *final(read_pos),
                        data: final(new_data).rest(),
                        out: final(out)@,
                        reports: final(reports)@,
                    },
                ),
                Err(e) => {
                    ||| want == Err::<KrModel, KrStop>(
                        KrStop { error: e, out: final(out)@, reports: final(reports)@ },
                    )
                    ||| {
                        &&& e == PatchError::Decoder && old(new_data).fallible()
                        &&& final(out)@.is_prefix_of(made_of(want).0)
                        &&& final(reports)@ == old(reports)@
                    }
                },
            }
        }),
{
    let ghost st = KrModel {
        read_pos: *read_pos,
        data: new_data.rest(),
        out: out@,
        reports: reports@,
    };
    if old_ref_size > i64::MAX as u64 {
        return Err(PatchError::Malformed);
    }
    let mut place: i64 = read_pos.wrapping_add(cover.old_pos_delta);
    if old_ref_size > 0 {
        place = wrap_place(place, old_ref_size as i64);
    }
    proof {
        assert(cover_place(*old(read_pos), cover, old_ref_size) == Some(place));
        assert(new_data.rest().skip(0) =~= new_data.rest());
        assert(out@ =~= out@ + new_data.rest().take(0));
        lemma_kr_cover_front(st, cover, old_ref_size, old_combined.bytes(), capacity as int);
        law_copied_len(
            st.data.len() as int,
            cover.new_pos_gap as int,
            capacity - st.out.len(),
        );
    }
    if cover.new_pos_gap > 0 {
        copy_n(new_data, out, cover.new_pos_gap, capacity)?;
    }
    if cover.length > 0 {
        old_combined.seek(SeekFrom::Start(to_unsigned(place)))?;
        copy_old(old_combined, out, cover.length, capacity)?;
    }
    *read_pos = place.wrapping_add(to_signed(cover.length));
    reports.push(to_signed(out.len() as u64));
    Ok(())
}

/// Makes the new data out of some covers, the new bytes and the old files, as far as
/// it can be made. Leaves it in `out`, and how long it was behind each cover in
/// `reports`.
pub fn apply_covers<S: ByteSource>(
    covers: &Vec<KrCover>,
    old_ref_size: u64,
    new_ref_size: u64,
    old_combined: &mut CombinedStream,
    new_data: &mut S,
    capacity: u64,
    out: &mut Vec<u8>,
    reports: &mut Vec<i64>,
) -> (r: Result<(), PatchError>)
    requires
        old(old_combined).valid(),
    ensures
        final(old_combined).valid(),
        final(old_combined).streams == old(old_combined).streams,
        final(new_data).base() == old(new_data).base(),
        final(new_data).fallible() == old(new_data).fallible(),
        final(out)@.len() <= capacity,
        kr_ends(
            kr_patched(
                covers@,
                old_ref_size,
                new_ref_size,
                old(old_combined).bytes(),
                capacity as int,
                old(new_data).rest(),
            ),
            r,
            final(out)@,
            final(reports)@,
            old(new_data).fallible(),
        ),
{
    let ghost contents = old_combined.bytes();
    let ghost data = new_data.rest();
    let ghost count = covers@.len() as int;
    let ghost all = kr_patched(
        covers@,
        old_ref_size,
        new_ref_size,
        contents,
        capacity as int,
        data,
    );
    let mut read_pos: i64 = 0;
    out.clear();
    reports.clear();
    let mut i: usize = 0;
    proof {
        lemma_kr_front_of_all(
            covers@,
            old_ref_size,
            new_ref_size,
            contents,
            capacity as int,
            data,
        );
        assert(out@ =~= Seq::empty());
        assert(reports@ =~= Seq::empty());
    }
    while i < covers.len()
        invariant
            i <= count,
            count == covers@.len(),
            old_combined.valid(),
            old_combined.streams == old(old_combined).streams,
            contents == old_combined.bytes(),
            contents == old(old_combined).bytes(),
            data == old(new_data).rest(),
            new_data.base() == old(new_data).base(),
            new_data.fallible() == old(new_data).fallible(),
            out@.len() <= capacity,
            all == kr_patched(
                covers@,
                old_ref_size,
                new_ref_size,
                contents,
                capacity as int,
                data,
            ),
            made_of(
                kr_covers_applied(
                    covers@,
                    count,
                    old_ref_size,
                    contents,
                    capacity as int,
                    data,
                ),
            ).0.is_prefix_of(out_of(all)),
            made_of(
                kr_covers_applied(
                    covers@,
                    count,
                    old_ref_size,
                    contents,
                    capacity as int,
                    data,
                ),
            ).1.is_prefix_of(reports_of_all(all)),
            kr_covers_applied(covers@, i as int, old_ref_size, contents, capacity as int, data)
                == Ok::<KrModel, KrStop>(
                KrModel { read_pos, data: new_data.rest(), out: out@, reports: reports@ },
            ),
        decreases count - i,
    {
        proof {
            if kr_covers_applied(
                covers@,
                i + 1,
                old_ref_size,
                contents,
                capacity as int,
                data,
            ) is Err {
                lemma_kr_applied_err(
                    covers@,
                    i + 1,
                    count,
                    old_ref_size,
                    contents,
                    capacity as int,
                    data,
                );
            }
            lemma_kr_front(
                covers@,
                i + 1,
                count,
                old_ref_size,
                contents,
                capacity as int,
                data,
            );
            lemma_kr_front(
                covers@,
                i as int,
                count,
                old_ref_size,
                contents,
                capacity as int,
                data,
            );
        }
        apply_cover(
            covers[i],
            old_ref_size,
            old_combined,
            new_data,
            &mut read_pos,
            out,
            reports,
            capacity,
        )?;
        i = i + 1;
    }
    let write_pos: u64 = out.len() as u64;
    if write_pos < new_ref_size {
        proof {
            law_copied_len(
                new_data.rest().len() as int,
                new_ref_size - write_pos,
                capacity - write_pos,
            );
        }
        copy_n(new_data, out, new_ref_size - write_pos, capacity)?;
    }
    Ok(())
}

/// How a patch that was to make `all` ends: it goes through, it stops where it cannot
/// go on, or the decompressor fails and leaves a front of what was to come.
pub open spec fn kr_ends(
    all: Result<(Seq<u8>, Seq<i64>), KrStop>,
    r: Result<(), PatchError>,
    out: Seq<u8>,
    reports: Seq<i64>,
    fallible: bool,
) -> bool {
    match r {
        Ok(_) => all == Ok::<_, KrStop>((out, reports)),
        Err(e) => {
            ||| all == Err::<(Seq<u8>, Seq<i64>), KrStop>(KrStop { error: e, out, reports })
            ||| {
                &&& e == PatchError::Decoder && fallible
                &&& out.is_prefix_of(out_of(all))
                &&& reports.is_prefix_of(reports_of_all(all))
            }
        },
    }
}

/// A path without the slashes at its end.
pub open spec fn trimmed(path: Seq<char>) -> Seq<char>
    decreases path.len(),
{
    if path.len() > 0 && path.last() == '/' {
        trimmed(path.drop_last())
    } else {
        path
    }
}

/// The directories among the first `n` of some paths that are to be created: all
/// but the empty ones, without the slashes at their ends.
pub open spec fn dirs_to_create(dirs: Seq<Seq<char>>, n: int) -> Seq<Seq<char>>
    decreases n,
{
    if n <= 0 {
        Seq::empty()
    } else if dirs[n - 1].len() == 0 {
        dirs_to_create(dirs, n - 1)
    } else {
        dirs_to_create(dirs, n - 1).push(trimmed(dirs[n - 1]))
    }
}

/// A path without the slashes at its end.
fn trim_path(path: &str) -> (r: String)
    ensures
        r@ == trimmed(path@),
{
    let mut len = path.unicode_len();
    assert(path@.take(len as int) =~= path@);
    while len > 0 && path.get_char(len - 1) == '/'
        invariant
            len <= path@.len(),
            trimmed(path@) == trimmed(path@.take(len as int)),
        decreases len,
    {
        assert(path@.take(len as int).drop_last() =~= path@.take(len - 1));
        len = len - 1;
    }
    assert(path@.subrange(0, len as int) =~= path@.take(len as int));
    path.substring_char(0, len).to_owned()
}

/// What holds of the first `n` old files: that each is there and has the size
/// that the patch records. `actual` says which are there, and their sizes.
pub open spec fn old_files_checked(
    files: Seq<KrFileModel>,
    actual: Seq<Option<u64>>,
    n: int,
) -> Result<(), PatchError>
    decreases n,
{
    if n <= 0 {
        Ok(())
    } else {
        match old_files_checked(files, actual, n - 1) {
            Err(e) => Err(e),
            Ok(_) => if n > actual.len() || actual[n - 1] is None {
                Err(PatchError::OldFileNotFound { at: (n - 1) as u64 })
            } else if actual[n - 1]->0 != files[n - 1].size {
                Err(
                    PatchError::OldFileSizeMismatch {
                        at: (n - 1) as u64,
                        recorded: files[n - 1].size,
                        actual: actual[n - 1]->0,
                    },
                )
            } else {
                Ok(())
            },
        }
    }
}

proof fn lemma_checked_err(files: Seq<KrFileModel>, actual: Seq<Option<u64>>, i: int, n: int)
    requires
        i <= n,
        old_files_checked(files, actual, i) is Err,
    ensures
        old_files_checked(files, actual, n) == old_files_checked(files, actual, i),
    decreases n,
{
    if i < n {
        lemma_checked_err(files, actual, i, n - 1);
    }
}

/// Where the old files pass, all of them are there and have their sizes.
pub proof fn law_old_files_checked(files: Seq<KrFileModel>, actual: Seq<Option<u64>>)
    ensures
        old_files_checked(files, actual, files.len() as int) is Ok <==> {
            &&& files.len() <= actual.len()
            &&& forall|i: int|
                0 <= i < files.len() ==> #[trigger] actual[i] == Some(files[i].size)
        },
{
    lemma_files_checked(files, actual, files.len() as int);
}

proof fn lemma_files_checked(files: Seq<KrFileModel>, actual: Seq<Option<u64>>, n: int)
    requires
        0 <= n <= files.len(),
    ensures
        old_files_checked(files, actual, n) is Ok <==> {
            &&& n <= actual.len()
            &&& forall|i: int| 0 <= i < n ==> #[trigger] actual[i] == Some(files[i].size)
        },
    decreases n,
{
    if n > 0 {
        lemma_files_checked(files, actual, n - 1);
    }
}

/// The sizes of some files.
pub open spec fn sizes_of(files: Seq<KrFileModel>) -> Seq<u64> {
    Seq::new(files.len(), |i: int| files[i].size)
}

/// What comes of a patch.
pub struct KrOutput {
    /// The bytes of the new files.
    pub files: Vec<Vec<u8>>,
    /// How long the new data was behind each cover.
    pub reports: Vec<i64>,
}

/// What comes of a patch, as contracts speak of it.
pub struct KrOutputModel {
    pub files: Seq<Seq<u8>>,
    pub reports: Seq<i64>,
}

impl DeepView for KrOutput {
    type V = KrOutputModel;

    open spec fn deep_view(&self) -> KrOutputModel {
        KrOutputModel { files: self.files.deep_view(), reports: self.reports@ }
    }
}

/// New files of these sizes that hold `data`, and these reports.
pub open spec fn output_of(data: Seq<u8>, sizes: Seq<u64>, reports: Seq<i64>) -> KrOutputModel {
    KrOutputModel { files: cut_up(data, sizes), reports }
}

/// No files at all.
pub open spec fn no_output() -> KrOutputModel {
    KrOutputModel { files: Seq::empty(), reports: Seq::empty() }
}

/// Whether a patch makes its new files out of old ones, or is refused before.
pub open spec fn kr_set_up(hd19: KrHd19Model, old_files: Seq<Vec<u8>>) -> Result<bool, PatchError> {
    if hd19.head.old_files.len() == 0 || hd19.head.new_files.len() == 0 {
        if sizes_fit(sizes_of(hd19.head.new_files)) {
            Ok(false)
        } else {
            Err(PatchError::Malformed)
        }
    } else if old_files.len() == 0 {
        Err(PatchError::NoStreams)
    } else if joined(old_files, old_files.len() as int).len() > u64::MAX || !sizes_fit(
        sizes_of(hd19.head.new_files),
    ) {
        Err(PatchError::Malformed)
    } else {
        Ok(true)
    }
}

/// The new bytes of a patch.
pub open spec fn new_data_of_patch(patch: Seq<u8>, hd13: KrHd13Model) -> Result<
    Seq<u8>,
    PatchError,
> {
    clip_of(
        patch,
        hd13.comp_mode,
        hd13.new_data_diff_offset as int,
        hd13.new_data_diff_size as int,
        hd13.new_data_diff_comp_size as int,
    )
}

/// What a patch leaves behind: its new files, and why it has not made them whole.
pub struct KrLeft {
    pub made: KrOutputModel,
    pub error: Option<PatchError>,
}

/// What a patch makes of old files, and why it goes no further. Where it has no old
/// files or no new ones, the new files are filled with zeros, and so they are as far
/// as a patch that goes no further has not filled them.
pub open spec fn kr_files_patched(
    patch: Seq<u8>,
    hd19: KrHd19Model,
    hd13: KrHd13Model,
    old_files: Seq<Vec<u8>>,
) -> KrLeft {
    let sizes = sizes_of(hd19.head.new_files);
    let blank = output_of(Seq::empty(), sizes, Seq::empty());
    match kr_set_up(hd19, old_files) {
        Err(e) => KrLeft { made: no_output(), error: Some(e) },
        Ok(false) => KrLeft { made: blank, error: None },
        Ok(true) => match new_data_of_patch(patch, hd13) {
            Err(e) => KrLeft { made: blank, error: Some(e) },
            Ok(data) => match kr_patched(
                hd13.covers,
                hd19.old_ref_size,
                hd19.new_ref_size,
                joined(old_files, old_files.len() as int),
                sum_of(sizes, sizes.len() as int),
                data,
            ) {
                Err(stop) => KrLeft {
                    made: output_of(stop.out, sizes, stop.reports),
                    error: Some(stop.error),
                },
                Ok((out, reports)) => KrLeft {
                    made: output_of(out, sizes, reports),
                    error: None,
                },
            },
        },
    }
}

/// Whether the files that a patch has left hold a front of the new data that it was to
/// make as far as it could, where the decompressor failed.
pub open spec fn kr_front(
    made: KrOutputModel,
    sizes: Seq<u64>,
    all: Result<(Seq<u8>, Seq<i64>), KrStop>,
) -> bool {
    exists|data: Seq<u8>| #[trigger]
        data.is_prefix_of(out_of(all)) && made.files == cut_up(data, sizes)
        && made.reports.is_prefix_of(reports_of_all(all))
}

/// A patch of a whole directory.
pub struct KrPatchDir {
    pub patch_path: String,
}

impl KrPatchDir {
    /// The patch whose file is at `patch_path`.
    pub fn new(patch_path: &str) -> (r: Self)
        ensures
            r.patch_path@ == patch_path@,
    {
        Self { patch_path: patch_path.to_owned() }
    }

    /// Reads both headers of a patch. Only a compressed head and compressed covers
    /// can fail to be decompressed.
    pub fn parse(patch: &[u8]) -> (r: Result<(KrHd19, KrHd13), PatchError>)
        ensures
            match (head_lead_of(patch@, 0), r) {
                (Err(want_e), Err(e)) => e == want_e,
                (Err(_), Ok(_)) => false,
                (Ok(lead), Ok((hd19, hd13))) => hd19_of(patch@, lead) matches Ok((want, pos)) && {
                    &&& hd19.deep_view() == want
                    &&& hd13_of(patch@, pos) == Ok::<KrHd13Model, PatchError>(hd13.deep_view())
                },
                (Ok(lead), Err(e)) => {
                    ||| lead.head_comp_size > 0 && e == PatchError::Decoder
                    ||| match hd19_of(patch@, lead) {
                        Err(want_e) => e == want_e,
                        Ok((_, pos)) => {
                            ||| hd13_of(patch@, pos) == Err::<KrHd13Model, PatchError>(e)
                            ||| e == PatchError::Decoder && covers_compressed(patch@, pos)
                        },
                    }
                },
            },
    {
        let mut f = ByteStream::new(patch);
        let hd19 = parse_hd19(&mut f)?;
        let hd13 = parse_hd13(&mut f)?;
        Ok((hd19, hd13))
    }

    /// The directories that a patch creates.
    pub fn directories(hd19: &KrHd19) -> (r: Vec<String>)
        ensures
            ({
                let dirs = hd19.deep_view().head.new_directories;
                r.deep_view() == dirs_to_create(dirs, dirs.len() as int)
            }),
    {
        let ghost dirs = hd19.deep_view().head.new_directories;
        let mut out: Vec<String> = Vec::new();
        let mut i: usize = 0;
        assert(out.deep_view() =~= Seq::empty());
        while i < hd19.head.new_directories.len()
            invariant
                i <= dirs.len(),
                dirs == hd19.deep_view().head.new_directories,
                dirs.len() == hd19.head.new_directories@.len(),
                out.deep_view() == dirs_to_create(dirs, i as int),
            decreases dirs.len() - i,
        {
            let dir = hd19.head.new_directories[i].as_str();
            let ghost before = out.deep_view();
            assert(dir@ == dirs[i as int]);
            if !dir.is_empty() {
                out.push(trim_path(dir));
                assert(out.deep_view() =~= before.push(trimmed(dir@)));
            }
            i = i + 1;
        }
        out
    }

    /// Checks that every old file is there and has the size that the patch
    /// records. `actual` says which are there, and their sizes.
    pub fn check_old_files(files: &Vec<KrFileEntry>, actual: &Vec<Option<u64>>) -> (r: Result<
        (),
        PatchError,
    >)
        ensures
            r == old_files_checked(files.deep_view(), actual@, files@.len() as int),
    {
        let ghost all = files.deep_view();
        let ghost count = files@.len() as int;
        let mut i: usize = 0;
        while i < files.len()
            invariant
                i <= count,
                count == files@.len(),
                all == files.deep_view(),
                old_files_checked(all, actual@, i as int) is Ok,
            decreases count - i,
        {
            proof {
                assert(all[i as int] == files@[i as int].deep_view());
                if old_files_checked(all, actual@, i + 1) is Err {
                    lemma_checked_err(all, actual@, i + 1, count);
                }
            }
            if i >= actual.len() {
                return Err(PatchError::OldFileNotFound { at: i as u64 });
            }
            match actual[i] {
                None => return Err(PatchError::OldFileNotFound { at: i as u64 }),
                Some(size) => {
                    if size != files[i].size {
                        return Err(
                            PatchError::OldFileSizeMismatch {
                                at: i as u64,
                                recorded: files[i].size,
                                actual: size,
                            },
                        );
                    }
                },
            }
            i = i + 1;
        }
        Ok(())
    }

    /// The sizes of the new files.
    fn new_sizes(files: &Vec<KrFileEntry>) -> (r: Vec<u64>)
        ensures
            r@ == sizes_of(files.deep_view()),
    {
        let ghost all = files.deep_view();
        let mut sizes: Vec<u64> = Vec::new();
        let mut i: usize = 0;
        while i < files.len()
            invariant
                i <= files@.len(),
                all == files.deep_view(),
                all.len() == files@.len(),
                sizes@ == sizes_of(all).take(i as int),
            decreases files@.len() - i,
        {
            assert(all[i as int] == files@[i as int].deep_view());
            sizes.push(files[i].size);
            i = i + 1;
            assert(sizes@ =~= sizes_of(all).take(i as int));
        }
        assert(sizes@ =~= sizes_of(all));
        sizes
    }

    /// Makes the new files out of the bytes of the old ones, and leaves them in
    /// `output` as far as they can be made. Only compressed new bytes can fail to be
    /// decompressed.
    pub fn patch(
        &self,
        patch: &[u8],
        hd19: &KrHd19,
        hd13: &KrHd13,
        old_files: Vec<Vec<u8>>,
        output: &mut KrOutput,
    ) -> (r: Result<(), PatchError>)
        ensures
            ({
                let setup = kr_set_up(hd19.deep_view(), old_files@);
                let want = kr_files_patched(
                    patch@,
                    hd19.deep_view(),
                    hd13.deep_view(),
                    old_files@,
                );
                let sizes = sizes_of(hd19.deep_view().head.new_files);
                let made = final(output).deep_view();
                match r {
                    Ok(_) => want == (KrLeft { made, error: None }),
                    Err(e) => {
                        ||| want == (KrLeft { made, error: Some(e) })
                        ||| e == PatchError::Decoder && setup == Ok::<bool, PatchError>(true)
                            && !held_plain(hd13.comp_mode, hd13.new_data_diff_comp_size as int)
                            && (new_data_of_patch(patch@, hd13.deep_view()) matches Ok(data)
                            && kr_front(
                            made,
                            sizes,
                            kr_patched(
                                hd13.covers@,
                                hd19.old_ref_size,
                                hd19.new_ref_size,
                                joined(old_files@, old_files@.len() as int),
                                sum_of(sizes, sizes.len() as int),
                                data,
                            ),
                        ))
                    },
                }
            }),
    {
        output.files.clear();
        output.reports.clear();
        assert(output.files.deep_view() =~= Seq::empty());
        let sizes = Self::new_sizes(&hd19.head.new_files);
        let ghost new_files = hd19.head.new_files.deep_view();
        assert(new_files.len() == hd19.head.new_files@.len());
        assert(hd19.head.old_files.deep_view().len() == hd19.head.old_files@.len());
        let capacity = capacity_of(&sizes);
        if hd19.head.old_files.len() == 0 || hd19.head.new_files.len() == 0 {
            if capacity.is_none() {
                return Err(PatchError::Malformed);
            }
            let nothing: Vec<u8> = Vec::new();
            output.files = cut_files(nothing.as_slice(), &sizes);
            return Ok(());
        }
        let mut old_combined = CombinedStream::new(old_files)?;
        let room: u64 = match capacity {
            Some(room) => room,
            None => return Err(PatchError::Malformed),
        };
        let mut out: Vec<u8> = Vec::new();
        let patched = apply_patch(
            hd13,
            hd19.old_ref_size,
            hd19.new_ref_size,
            &mut old_combined,
            patch,
            room,
            &mut out,
            &mut output.reports,
        );
        output.files = cut_files(out.as_slice(), &sizes);
        proof {
            if let Ok(data) = new_data_of_patch(patch@, hd13.deep_view()) {
                let all = kr_patched(
                    hd13.covers@,
                    hd19.old_ref_size,
                    hd19.new_ref_size,
                    joined(old_files@, old_files@.len() as int),
                    room as int,
                    data,
                );
                if out@.is_prefix_of(out_of(all)) && output.reports@.is_prefix_of(
                    reports_of_all(all),
                ) {
                    assert(kr_front(output.deep_view(), sizes@, all));
                }
            }
        }
        patched
    }
}

/// Opens the new bytes of a patch, and makes the new data out of them and the old
/// files, as far as it can be made. Leaves it in `out`, and how long it was behind each
/// cover in `reports`.
pub fn apply_patch(
    hd13: &KrHd13,
    old_ref_size: u64,
    new_ref_size: u64,
    old_combined: &mut CombinedStream,
    patch: &[u8],
    capacity: u64,
    out: &mut Vec<u8>,
    reports: &mut Vec<i64>,
) -> (r: Result<(), PatchError>)
    requires
        old(old_combined).valid(),
    ensures
        final(old_combined).valid(),
        final(old_combined).streams == old(old_combined).streams,
        final(out)@.len() <= capacity,
        match new_data_of_patch(patch@, hd13.deep_view()) {
            Err(e) => {
                &&& r == Err::<(), PatchError>(e)
                &&& final(out)@ == Seq::<u8>::empty()
                &&& final(reports)@ == Seq::<i64>::empty()
            },
            Ok(data) => kr_ends(
                kr_patched(
                    hd13.covers@,
                    old_ref_size,
                    new_ref_size,
                    old(old_combined).bytes(),
                    capacity as int,
                    data,
                ),
                r,
                final(out)@,
                final(reports)@,
                !held_plain(hd13.comp_mode, hd13.new_data_diff_comp_size as int),
            ),
        },
{
    out.clear();
    reports.clear();
    proof {
        assert(out@ =~= Seq::empty());
        assert(reports@ =~= Seq::empty());
    }
    let (clip, _) = get_clip_stream(
        patch,
        hd13.comp_mode,
        hd13.new_data_diff_offset,
        hd13.new_data_diff_size,
        hd13.new_data_diff_comp_size,
    )?;
    let mut new_data = clip;
    apply_covers(
        &hd13.covers,
        old_ref_size,
        new_ref_size,
        old_combined,
        &mut new_data,
        capacity,
        out,
        reports,
    )
}

} // verus!
