//! How new data is made: stretches of old data and of new bytes in turn, to
//! which the differences are added.
use crate::error::PatchError;
use crate::parser::{
    byte_of, long_7bit_of, long_7bit_tagged_of, read_byte, read_exact, read_exact_onto,
    read_long_7bit, read_long_7bit_tagged, ByteSource, ByteStream,
};
use crate::rle::{
    add_bytes, add_value, added_at, differences, law_differences_split, lemma_added_twice,
    lemma_differences_len, min, next_run, open_run, RleModel, K_BYTE_RLE_TYPE,
};
use crate::streams::{range_of, SeekableRead};
use crate::structs::{CoverHeader, DirectoryReferencePair, HeaderInfo, RleRefClip};
use crate::varint::{
    as_signed, as_unsigned, fits, law_tagged_reads_no_further, to_signed, to_unsigned, LONG_LIMIT,
};
use vstd::prelude::*;

verus! {

/// How many top bits of the first byte of a cover are its sign.
pub const K_SIGN_TAG_BIT: u8 = 1;

/// The size from which covers are read one by one, and below which all at once.
pub const MAX_MEM_BUFFER_LEN: i64 = 0x70_0000;

/// The size above which new data is passed on.
pub const MAX_MEM_BUFFER_LIMIT: usize = 0xa0_0000;

/// The cover at the front of `rest`, behind one that ends at `old_back` in the
/// old data and at `new_back` in the new. Its place in the old data is given by
/// the distance from there, with a sign; its place in the new data by the gap
/// before it. There is none where the bytes run out or a place leaves the range
/// of an `i64`.
pub open spec fn cover_of(rest: Seq<u8>, old_back: int, new_back: int, remaining: int) -> Option<
    (CoverHeader, Seq<u8>),
> {
    match byte_of(rest) {
        Ok((sign, left)) => match long_7bit_tagged_of(K_SIGN_TAG_BIT, sign, left) {
            Ok((inc_old_pos, left)) => match long_7bit_of(left) {
                Ok((copy_length, left)) => match long_7bit_of(left) {
                    Ok((cover_length, left)) => {
                        let old_pos = if sign < 128 {
                            old_back + inc_old_pos
                        } else {
                            old_back - inc_old_pos
                        };
                        let new_pos = new_back + copy_length;
                        if fits(old_pos) && fits(new_pos) && fits(old_pos + cover_length) && fits(
                            new_pos + cover_length,
                        ) {
                            Some(
                                (
                                    CoverHeader {
                                        old_pos: old_pos as i64,
                                        new_pos: new_pos as i64,
                                        cover_length,
                                        next_cover_index: remaining as i64,
                                    },
                                    left,
                                ),
                            )
                        } else {
                            None
                        }
                    },
                    Err(_) => None,
                },
                Err(_) => None,
            },
            Err(_) => None,
        },
        Err(_) => None,
    }
}

/// Where the last of some covers ends in the old data.
pub open spec fn old_end(covers: Seq<CoverHeader>) -> int {
    if covers.len() == 0 {
        0
    } else {
        covers.last().old_pos + covers.last().cover_length
    }
}

/// Where the last of some covers ends in the new data.
pub open spec fn new_end(covers: Seq<CoverHeader>) -> int {
    if covers.len() == 0 {
        0
    } else {
        covers.last().new_pos + covers.last().cover_length
    }
}

/// The first `n` of `count` covers at the front of `rest`.
pub open spec fn covers_of(rest: Seq<u8>, n: int, count: int) -> Option<
    (Seq<CoverHeader>, Seq<u8>),
>
    decreases n,
{
    if n <= 0 {
        Some((Seq::empty(), rest))
    } else {
        match covers_of(rest, n - 1, count) {
            Some((covers, left)) => match cover_of(
                left,
                old_end(covers),
                new_end(covers),
                count - n,
            ) {
                Some((cover, left)) => Some((covers.push(cover), left)),
                None => None,
            },
            None => None,
        }
    }
}

/// The covers that a cover stream holds: in its first `cover_size` bytes where
/// these are few, and else in the stream as it goes on.
pub open spec fn cover_headers(rest: Seq<u8>, cover_size: int, cover_count: int) -> Option<
    Seq<CoverHeader>,
> {
    if cover_count < 0 || cover_size < 0 {
        None
    } else if cover_size >= MAX_MEM_BUFFER_LEN {
        match covers_of(rest, cover_count, cover_count) {
            Some((covers, _)) => Some(covers),
            None => None,
        }
    } else if cover_size > rest.len() {
        None
    } else {
        match covers_of(rest.take(cover_size), cover_count, cover_count) {
            Some((covers, _)) => Some(covers),
            None => None,
        }
    }
}

/// What is left of a cover stream behind the covers that were read from it: all
/// behind its first `cover_size` bytes where these are few, and else all behind the
/// last cover.
pub open spec fn covers_left(rest: Seq<u8>, cover_size: int, cover_count: int) -> Seq<u8> {
    if cover_size >= MAX_MEM_BUFFER_LEN {
        (covers_of(rest, cover_count, cover_count)->0).1
    } else {
        rest.skip(cover_size)
    }
}

proof fn lemma_cover_reads_no_further(
    rest: Seq<u8>,
    more: Seq<u8>,
    old_back: int,
    new_back: int,
    remaining: int,
)
    ensures
        cover_of(rest, old_back, new_back, remaining) matches Some((cover, left)) ==> cover_of(
            rest + more,
            old_back,
            new_back,
            remaining,
        ) == Some((cover, left + more)),
{
    if rest.len() > 0 {
        let sign = rest[0];
        assert((rest + more).skip(1) =~= rest.skip(1) + more);
        law_tagged_reads_no_further(
            LONG_LIMIT as int,
            K_SIGN_TAG_BIT,
            sign,
            rest.skip(1),
            more,
        );
        if let Ok((_, left)) = long_7bit_tagged_of(K_SIGN_TAG_BIT, sign, rest.skip(1)) {
            lemma_long_reads_no_further(left, more);
            if let Ok((_, left)) = long_7bit_of(left) {
                lemma_long_reads_no_further(left, more);
            }
        }
    }
}

proof fn lemma_long_reads_no_further(rest: Seq<u8>, more: Seq<u8>)
    ensures
        long_7bit_of(rest) matches Ok((v, left)) ==> long_7bit_of(rest + more) == Ok::<
            (i64, Seq<u8>),
            PatchError,
        >((v, left + more)),
{
    if rest.len() > 0 {
        assert((rest + more).skip(1) =~= rest.skip(1) + more);
        law_tagged_reads_no_further(LONG_LIMIT as int, 0, rest[0], rest.skip(1), more);
    }
}

/// Covers depend on their own bytes alone: further bytes at the end are left over.
pub proof fn law_covers_read_no_further(rest: Seq<u8>, more: Seq<u8>, n: int, count: int)
    ensures
        covers_of(rest, n, count) matches Some((covers, left)) ==> covers_of(
            rest + more,
            n,
            count,
        ) == Some((covers, left + more)),
    decreases n,
{
    if n > 0 {
        law_covers_read_no_further(rest, more, n - 1, count);
        if let Some((covers, left)) = covers_of(rest, n - 1, count) {
            lemma_cover_reads_no_further(
                left,
                more,
                old_end(covers),
                new_end(covers),
                count - n,
            );
        }
    }
}

/// Covers that stand whole in the first bytes of a stream are the same whether these
/// bytes are read at once or the stream is read as it goes on. The first leaves what
/// stands behind these bytes, and the second what stands behind the covers.
pub proof fn law_covers_read_either_way(
    rest: Seq<u8>,
    small: int,
    large: int,
    cover_count: int,
)
    requires
        0 <= small < MAX_MEM_BUFFER_LEN <= large,
        cover_headers(rest, small, cover_count) is Some,
    ensures
        cover_headers(rest, large, cover_count) == cover_headers(rest, small, cover_count),
        covers_left(rest, small, cover_count) == rest.skip(small),
        covers_left(rest, large, cover_count) == (covers_of(
            rest.take(small),
            cover_count,
            cover_count,
        )->0).1 + rest.skip(small),
{
    assert(rest.take(small) + rest.skip(small) =~= rest);
    law_covers_read_no_further(
        rest.take(small),
        rest.skip(small),
        cover_count,
        cover_count,
    );
}

proof fn lemma_covers_none(rest: Seq<u8>, i: int, n: int, count: int)
    requires
        i <= n,
        covers_of(rest, i, count) is None,
    ensures
        covers_of(rest, n, count) is None,
    decreases n,
{
    if i < n {
        lemma_covers_none(rest, i, n - 1, count);
    }
}

/// The covers of a list are as many as its count says, and each knows how many
/// follow it and ends at a place that an `i64` can say.
pub proof fn law_covers_counted(rest: Seq<u8>, n: int, count: int)
    requires
        0 <= n <= count <= i64::MAX,
    ensures
        covers_of(rest, n, count) matches Some((covers, _)) ==> {
            &&& covers.len() == n
            &&& forall|i: int|
                0 <= i < n ==> (#[trigger] covers[i]).next_cover_index == count - 1 - i && fits(
                    covers[i].new_pos + covers[i].cover_length,
                )
        },
    decreases n,
{
    if n > 0 {
        law_covers_counted(rest, n - 1, count);
    }
}

/// The covers of a stream are as many as its count says, and each knows how
/// many follow it and ends at a place that an `i64` can say.
pub proof fn law_cover_headers_counted(rest: Seq<u8>, cover_size: i64, cover_count: i64)
    ensures
        cover_headers(rest, cover_size as int, cover_count as int) matches Some(covers) ==> {
            &&& covers.len() == cover_count
            &&& forall|i: int|
                0 <= i < covers.len() ==> (#[trigger] covers[i]).next_cover_index == cover_count - 1
                    - i && fits(covers[i].new_pos + covers[i].cover_length)
        },
{
    if cover_count >= 0 && cover_size >= 0 {
        law_covers_counted(rest, cover_count as int, cover_count as int);
        law_covers_counted(
            rest.take(cover_size as int),
            cover_count as int,
            cover_count as int,
        );
    }
}

/// The error of data that ends too soon, where that leaves no answer.
fn no_answer(e: PatchError) -> (r: PatchError)
    ensures
        r == if e == PatchError::UnexpectedEof {
            PatchError::Malformed
        } else {
            e
        },
{
    match e {
        PatchError::UnexpectedEof => PatchError::Malformed,
        _ => e,
    }
}

/// Reads one cover.
fn read_cover<S: ByteSource>(src: &mut S, old_back: i64, new_back: i64, remaining: i64) -> (r:
    Result<CoverHeader, PatchError>)
    ensures
        final(src).base() == old(src).base(),
        final(src).fallible() == old(src).fallible(),
        match r {
            Ok(cover) => cover_of(
                old(src).rest(),
                old_back as int,
                new_back as int,
                remaining as int,
            ) == Some((cover, final(src).rest())),
            Err(e) => {
                ||| e == PatchError::Malformed && cover_of(
                    old(src).rest(),
                    old_back as int,
                    new_back as int,
                    remaining as int,
                ) is None
                ||| old(src).fallible() && e == PatchError::Decoder
            },
        },
{
    let p_sign = match read_byte(src) {
        Ok(b) => b,
        Err(e) => return Err(no_answer(e)),
    };
    let inc_old_pos = match read_long_7bit_tagged(src, K_SIGN_TAG_BIT, p_sign) {
        Ok(v) => v,
        Err(e) => return Err(no_answer(e)),
    };
    let copy_length = match read_long_7bit(src) {
        Ok(v) => v,
        Err(e) => return Err(no_answer(e)),
    };
    let cover_length = match read_long_7bit(src) {
        Ok(v) => v,
        Err(e) => return Err(no_answer(e)),
    };
    let old_pos = if p_sign < 128 {
        old_back.checked_add(inc_old_pos)
    } else {
        old_back.checked_sub(inc_old_pos)
    };
    let new_pos = new_back.checked_add(copy_length);
    match (old_pos, new_pos) {
        (Some(old_pos), Some(new_pos)) => {
            if old_pos.checked_add(cover_length).is_none() || new_pos.checked_add(
                cover_length,
            ).is_none() {
                return Err(PatchError::Malformed);
            }
            Ok(CoverHeader::new(old_pos, new_pos, cover_length, remaining))
        },
        _ => Err(PatchError::Malformed),
    }
}

/// Reads `count` covers.
fn read_covers_from<S: ByteSource>(src: &mut S, count: i64) -> (r: Result<
    Vec<CoverHeader>,
    PatchError,
>)
    requires
        count >= 0,
    ensures
        final(src).base() == old(src).base(),
        final(src).fallible() == old(src).fallible(),
        match r {
            Ok(covers) => covers_of(old(src).rest(), count as int, count as int) == Some(
                (covers@, final(src).rest()),
            ),
            Err(e) => {
                ||| e == PatchError::Malformed && covers_of(
                    old(src).rest(),
                    count as int,
                    count as int,
                ) is None
                ||| old(src).fallible() && e == PatchError::Decoder
            },
        },
{
    let mut headers: Vec<CoverHeader> = Vec::new();
    let mut last_old_pos_back: i64 = 0;
    let mut last_new_pos_back: i64 = 0;
    let mut remaining: i64 = count;
    while remaining > 0
        invariant
            0 <= remaining <= count,
            src.base() == old(src).base(),
            src.fallible() == old(src).fallible(),
            covers_of(old(src).rest(), count - remaining, count as int) == Some(
                (headers@, src.rest()),
            ),
            last_old_pos_back == old_end(headers@),
            last_new_pos_back == new_end(headers@),
        decreases remaining,
    {
        proof {
            if covers_of(old(src).rest(), count - remaining + 1, count as int) is None {
                lemma_covers_none(
                    old(src).rest(),
                    count - remaining + 1,
                    count as int,
                    count as int,
                );
            }
        }
        remaining = remaining - 1;
        let cover = read_cover(src, last_old_pos_back, last_new_pos_back, remaining)?;
        last_old_pos_back = cover.old_pos + cover.cover_length;
        last_new_pos_back = cover.new_pos + cover.cover_length;
        headers.push(cover);
    }
    Ok(headers)
}

/// Reads the covers of a cover stream.
pub fn read_cover_headers<S: ByteSource>(
    cover_reader: &mut S,
    cover_size: i64,
    cover_count: i64,
) -> (r: Result<Vec<CoverHeader>, PatchError>)
    ensures
        final(cover_reader).base() == old(cover_reader).base(),
        final(cover_reader).fallible() == old(cover_reader).fallible(),
        match r {
            Ok(covers) => {
                &&& cover_headers(
                    old(cover_reader).rest(),
                    cover_size as int,
                    cover_count as int,
                ) == Some(covers@)
                &&& final(cover_reader).rest() == covers_left(
                    old(cover_reader).rest(),
                    cover_size as int,
                    cover_count as int,
                )
            },
            Err(e) => {
                ||| e == PatchError::Malformed && cover_headers(
                    old(cover_reader).rest(),
                    cover_size as int,
                    cover_count as int,
                ) is None
                ||| old(cover_reader).fallible() && e == PatchError::Decoder
            },
        },
{
    if cover_count < 0 || cover_size < 0 {
        return Err(PatchError::Malformed);
    }
    if cover_size < MAX_MEM_BUFFER_LEN {
        let buffer = match read_exact(cover_reader, cover_size as u64) {
            Ok(buffer) => buffer,
            Err(e) => return Err(no_answer(e)),
        };
        assert(buffer.deep_view() =~= buffer@);
        let mut src = ByteStream::new(buffer.as_slice());
        assert(src.rest() =~= buffer@);
        read_covers_from(&mut src, cover_count)
    } else {
        read_covers_from(cover_reader, cover_count)
    }
}

/// Where the differences stand with the run `rle` open and these streams.
pub open spec fn rle_model<S: ByteSource>(rle: RleRefClip, ctrl: S, code: S) -> RleModel {
    RleModel {
        set_len: rle.mem_set_length as int,
        set_val: rle.mem_set_value,
        copy_len: rle.mem_copy_length as int,
        ctrl: ctrl.rest(),
        code: code.rest(),
    }
}

/// The next run and the differences from there on, behind an open run that is
/// used up.
pub open spec fn resumed(st: RleModel, n: int) -> Option<(Seq<u8>, RleModel)> {
    if n <= 0 {
        Some((Seq::empty(), st))
    } else {
        match next_run(st) {
            None => None,
            Some(st2) => differences(st2, n),
        }
    }
}

/// Differences that come behind `bytes`.
pub open spec fn behind(bytes: Seq<u8>, more: Option<(Seq<u8>, RleModel)>) -> Option<
    (Seq<u8>, RleModel),
> {
    match more {
        None => None,
        Some((more, st)) => Some((bytes + more, st)),
    }
}

/// The differences are the open run and what comes behind it.
proof fn lemma_differences_resumed(st: RleModel, n: int)
    requires
        st.valid(),
        n >= 0,
    ensures
        match open_run(st, n) {
            None => n > 0 && differences(st, n) is None,
            Some((bytes, st1)) => {
                &&& bytes.len() <= n
                &&& st1.valid()
                &&& differences(st, n) == behind(bytes, resumed(st1, n - bytes.len()))
                &&& bytes.len() < n ==> st1.set_len == 0 && st1.copy_len == 0
            },
        },
{
    if let Some((bytes, st1)) = open_run(st, n) {
        if n == 0 {
            assert(bytes =~= Seq::empty());
            assert(st.code.skip(0) =~= st.code);
            assert(Seq::<u8>::empty() + Seq::<u8>::empty() =~= Seq::empty());
        } else if bytes.len() >= n {
            assert(bytes + Seq::<u8>::empty() =~= bytes);
        }
    }
}

/// What the new data is made of so far, before the differences are added: its
/// bytes, where the last cover ends in it, and the new bytes not yet used.
pub struct BaseModel {
    pub bytes: Seq<u8>,
    pub back: int,
    pub diff: Seq<u8>,
}

/// The base with new bytes up to `target`, where it does not reach that far.
pub open spec fn filled_to(b: BaseModel, target: int) -> Option<BaseModel> {
    if b.back < target {
        let gap = target - b.back;
        if gap > i64::MAX || gap > b.diff.len() {
            None
        } else {
            Some(
                BaseModel {
                    bytes: b.bytes + b.diff.take(gap),
                    back: target,
                    diff: b.diff.skip(gap),
                },
            )
        }
    } else {
        Some(b)
    }
}

/// The old data under a cover, in old data with these contents that can be read
/// from no further than `last_position`.
pub open spec fn covered(contents: Seq<u8>, last_position: int, cover: CoverHeader) -> Option<
    Seq<u8>,
> {
    if cover.cover_length < 0 {
        None
    } else {
        match range_of(
            contents,
            last_position,
            PatchError::Malformed,
            as_unsigned(cover.old_pos) as int,
            cover.cover_length as int,
        ) {
            Ok(bytes) => Some(bytes),
            Err(_) => None,
        }
    }
}

/// The base with a cover behind it, and new bytes in the gap between.
pub open spec fn extended(
    b: BaseModel,
    contents: Seq<u8>,
    last_position: int,
    cover: CoverHeader,
) -> Option<BaseModel> {
    match filled_to(b, cover.new_pos as int) {
        None => None,
        Some(b) => match covered(contents, last_position, cover) {
            None => None,
            Some(bytes) => Some(
                BaseModel {
                    bytes: b.bytes + bytes,
                    back: cover.new_pos + cover.cover_length,
                    ..b
                },
            ),
        },
    }
}

/// The base that some covers make, with `diff` for the gaps.
pub open spec fn base_of(
    covers: Seq<CoverHeader>,
    contents: Seq<u8>,
    last_position: int,
    diff: Seq<u8>,
) -> Option<BaseModel>
    decreases covers.len(),
{
    if covers.len() == 0 {
        Some(BaseModel { bytes: Seq::empty(), back: 0, diff })
    } else {
        match base_of(covers.drop_last(), contents, last_position, diff) {
            None => None,
            Some(b) => extended(b, contents, last_position, covers.last()),
        }
    }
}

/// The whole of the new data, before the differences are added.
pub open spec fn whole_base(
    covers: Seq<CoverHeader>,
    contents: Seq<u8>,
    last_position: int,
    diff: Seq<u8>,
    new_data_size: int,
) -> Option<Seq<u8>> {
    match base_of(covers, contents, last_position, diff) {
        None => None,
        Some(b) => match filled_to(b, new_data_size) {
            None => None,
            Some(b) => Some(b.bytes),
        },
    }
}

/// The differences with no run open, and these streams.
pub open spec fn fresh_rle(ctrl: Seq<u8>, code: Seq<u8>) -> RleModel {
    RleModel { set_len: 0, set_val: 0, copy_len: 0, ctrl, code }
}

/// The new data that some covers, the bytes for the gaps and the differences
/// make out of old data.
pub open spec fn new_data_of(
    covers: Seq<CoverHeader>,
    contents: Seq<u8>,
    last_position: int,
    diff: Seq<u8>,
    new_data_size: int,
    ctrl: Seq<u8>,
    code: Seq<u8>,
) -> Option<Seq<u8>> {
    match whole_base(covers, contents, last_position, diff, new_data_size) {
        None => None,
        Some(base) => match differences(fresh_rle(ctrl, code), base.len() as int) {
            None => None,
            Some((bytes, _)) => Some(added_at(base, 0, bytes)),
        },
    }
}

/// With more covers there is no less of the base, and none where there was none.
proof fn lemma_base_grows(
    covers: Seq<CoverHeader>,
    i: int,
    contents: Seq<u8>,
    last_position: int,
    diff: Seq<u8>,
)
    requires
        0 <= i <= covers.len(),
    ensures
        base_of(covers.take(i), contents, last_position, diff) is None ==> base_of(
            covers,
            contents,
            last_position,
            diff,
        ) is None,
        base_of(covers, contents, last_position, diff) matches Some(b) ==> (base_of(
            covers.take(i),
            contents,
            last_position,
            diff,
        )->0).bytes.is_prefix_of(b.bytes),
    decreases covers.len(),
{
    if i == covers.len() {
        assert(covers.take(i) =~= covers);
    } else {
        let shorter = covers.drop_last();
        lemma_base_grows(shorter, i, contents, last_position, diff);
        assert(shorter.take(i) =~= covers.take(i));
        if let Some(b) = base_of(covers, contents, last_position, diff) {
            let before = (base_of(shorter, contents, last_position, diff)->0).bytes;
            assert(before.is_prefix_of(b.bytes));
        }
    }
}

/// What an output holds after a failure: what it held before, and no more behind it
/// than a front of the data that it was to get, where there is such data.
pub open spec fn holds_front<T>(before: Seq<T>, after: Seq<T>, data: Option<Seq<T>>) -> bool {
    &&& before.is_prefix_of(after)
    &&& data matches Some(data) ==> after.is_prefix_of(before + data)
}

/// What the first covers make, with the differences added, is a front of the new
/// data.
proof fn lemma_front_of_new_data(
    covers: Seq<CoverHeader>,
    i: int,
    contents: Seq<u8>,
    last_position: int,
    diff: Seq<u8>,
    new_data_size: int,
    ctrl: Seq<u8>,
    code: Seq<u8>,
)
    requires
        0 <= i <= covers.len(),
        base_of(covers.take(i), contents, last_position, diff) is Some,
        differences(
            fresh_rle(ctrl, code),
            (base_of(covers.take(i), contents, last_position, diff)->0).bytes.len() as int,
        ) is Some,
    ensures
        ({
            let bytes = (base_of(covers.take(i), contents, last_position, diff)->0).bytes;
            let done = (differences(fresh_rle(ctrl, code), bytes.len() as int)->0).0;
            new_data_of(
                covers,
                contents,
                last_position,
                diff,
                new_data_size,
                ctrl,
                code,
            ) matches Some(data) ==> added_at(bytes, 0, done).is_prefix_of(data)
        }),
{
    let st = fresh_rle(ctrl, code);
    let bytes = (base_of(covers.take(i), contents, last_position, diff)->0).bytes;
    let n = bytes.len() as int;
    let (done, st1) = differences(st, n)->0;
    lemma_base_grows(covers, i, contents, last_position, diff);
    lemma_differences_len(st, n);
    if let Some(data) = new_data_of(
        covers,
        contents,
        last_position,
        diff,
        new_data_size,
        ctrl,
        code,
    ) {
        let base = whole_base(covers, contents, last_position, diff, new_data_size)->0;
        assert(bytes.is_prefix_of(base));
        law_differences_split(st, n, base.len() - n);
        let (more, _) = differences(st1, base.len() - n)->0;
        assert(data == added_at(base, 0, done + more));
        assert forall|j: int| 0 <= j < n implies added_at(bytes, 0, done)[j] == data[j] by {
            assert(bytes[j] == base.subrange(0, n)[j]);
        }
        assert(added_at(bytes, 0, done) =~= data.subrange(0, n));
    }
}

/// A base with a cover behind it is the base and what the cover makes of none.
proof fn lemma_extended_behind(
    b: BaseModel,
    contents: Seq<u8>,
    last_position: int,
    cover: CoverHeader,
)
    ensures
        extended(b, contents, last_position, cover) == match extended(
            BaseModel { bytes: Seq::empty(), ..b },
            contents,
            last_position,
            cover,
        ) {
            None => None,
            Some(e) => Some(BaseModel { bytes: b.bytes + e.bytes, ..e }),
        },
{
    let none = BaseModel { bytes: Seq::<u8>::empty(), ..b };
    if let Some(e) = extended(none, contents, last_position, cover) {
        let e2 = extended(b, contents, last_position, cover)->0;
        assert(e2.bytes =~= b.bytes + e.bytes);
    }
}

/// Where the differences end before the base does there is no new data.
proof fn lemma_no_new_data(
    covers: Seq<CoverHeader>,
    i: int,
    contents: Seq<u8>,
    last_position: int,
    diff: Seq<u8>,
    new_data_size: int,
    ctrl: Seq<u8>,
    code: Seq<u8>,
)
    requires
        0 <= i <= covers.len(),
        base_of(covers.take(i), contents, last_position, diff) is None || differences(
            fresh_rle(ctrl, code),
            (base_of(covers.take(i), contents, last_position, diff)->0).bytes.len() as int,
        ) is None,
    ensures
        new_data_of(covers, contents, last_position, diff, new_data_size, ctrl, code) is None,
{
    lemma_base_grows(covers, i, contents, last_position, diff);
    if let Some(base) = whole_base(covers, contents, last_position, diff, new_data_size) {
        let n = (base_of(covers.take(i), contents, last_position, diff)->0).bytes.len() as int;
        law_differences_split(fresh_rle(ctrl, code), n, base.len() - n);
    }
}

/// Whether each cover starts where the one before it ends, or later.
pub open spec fn in_order(covers: Seq<CoverHeader>) -> bool
    decreases covers.len(),
{
    if covers.len() == 0 {
        true
    } else {
        in_order(covers.drop_last()) && new_end(covers.drop_last()) <= covers.last().new_pos
    }
}

/// Covers in order make a base that ends where the last of them does.
proof fn lemma_base_length(
    covers: Seq<CoverHeader>,
    contents: Seq<u8>,
    last_position: int,
    diff: Seq<u8>,
)
    requires
        in_order(covers),
    ensures
        base_of(covers, contents, last_position, diff) matches Some(b) ==> {
            &&& b.back == new_end(covers)
            &&& b.bytes.len() == new_end(covers)
        },
    decreases covers.len(),
{
    if covers.len() > 0 {
        lemma_base_length(covers.drop_last(), contents, last_position, diff);
    }
}

/// Covers that come in order and end within the new data make new data of just
/// the size that the patch gives it.
pub proof fn law_new_data_size(
    covers: Seq<CoverHeader>,
    contents: Seq<u8>,
    last_position: int,
    diff: Seq<u8>,
    new_data_size: int,
    ctrl: Seq<u8>,
    code: Seq<u8>,
)
    requires
        in_order(covers),
        new_end(covers) <= new_data_size,
    ensures
        new_data_of(covers, contents, last_position, diff, new_data_size, ctrl, code) matches Some(
            data,
        ) ==> data.len() == new_data_size,
{
    lemma_base_length(covers, contents, last_position, diff);
}

proof fn lemma_cover_in_base(
    covers: Seq<CoverHeader>,
    i: int,
    contents: Seq<u8>,
    last_position: int,
    diff: Seq<u8>,
)
    requires
        in_order(covers),
        0 <= i < covers.len(),
        covers[i].cover_length > 0,
        base_of(covers, contents, last_position, diff) is Some,
    ensures
        ({
            let cover = covers[i];
            let bytes = (base_of(covers, contents, last_position, diff)->0).bytes;
            let old_pos = as_unsigned(cover.old_pos);
            &&& 0 <= cover.new_pos
            &&& cover.new_pos + cover.cover_length <= bytes.len()
            &&& old_pos + cover.cover_length <= contents.len()
            &&& bytes.subrange(cover.new_pos as int, cover.new_pos + cover.cover_length)
                == contents.subrange(old_pos as int, old_pos + cover.cover_length)
        }),
    decreases covers.len(),
{
    let shorter = covers.drop_last();
    lemma_base_length(shorter, contents, last_position, diff);
    let before = (base_of(shorter, contents, last_position, diff)->0).bytes;
    let bytes = (base_of(covers, contents, last_position, diff)->0).bytes;
    let cover = covers[i];
    let (start, end) = (cover.new_pos as int, cover.new_pos + cover.cover_length);
    if i < shorter.len() {
        lemma_cover_in_base(shorter, i, contents, last_position, diff);
        assert(shorter[i] == cover);
        assert(bytes.take(before.len() as int) =~= before);
        assert(bytes.subrange(start, end) =~= before.subrange(start, end));
    } else {
        let old_pos = as_unsigned(cover.old_pos) as int;
        assert(bytes.subrange(start, end) =~= contents.subrange(
            old_pos,
            old_pos + cover.cover_length,
        ));
    }
}

/// Where covers come in order, each byte of the new data under a cover is the byte
/// of the old data that the cover takes over, with the difference for its place
/// added.
pub proof fn law_cover_in_place(
    covers: Seq<CoverHeader>,
    i: int,
    k: int,
    contents: Seq<u8>,
    last_position: int,
    diff: Seq<u8>,
    new_data_size: int,
    ctrl: Seq<u8>,
    code: Seq<u8>,
)
    requires
        in_order(covers),
        0 <= i < covers.len(),
        0 <= k < covers[i].cover_length,
    ensures
        new_data_of(covers, contents, last_position, diff, new_data_size, ctrl, code) matches Some(
            data,
        ) ==> {
            let at = covers[i].new_pos + k;
            let differing = (differences(fresh_rle(ctrl, code), data.len() as int)->0).0;
            &&& 0 <= at < data.len()
            &&& data.len() == differing.len()
            &&& data[at] == (contents[as_unsigned(covers[i].old_pos) + k] + differing[at]) % 256
        },
{
    if new_data_of(covers, contents, last_position, diff, new_data_size, ctrl, code) is Some {
        lemma_cover_in_base(covers, i, contents, last_position, diff);
        let base = base_of(covers, contents, last_position, diff)->0;
        let whole = whole_base(covers, contents, last_position, diff, new_data_size)->0;
        lemma_differences_len(fresh_rle(ctrl, code), whole.len() as int);
        let cover = covers[i];
        let (start, end) = (cover.new_pos as int, cover.new_pos + cover.cover_length);
        let old_pos = as_unsigned(cover.old_pos) as int;
        assert(base.bytes.subrange(start, end)[k] == contents.subrange(
            old_pos,
            old_pos + cover.cover_length,
        )[k]);
        assert(whole[start + k] == base.bytes[start + k]);
        let data = new_data_of(
            covers,
            contents,
            last_position,
            diff,
            new_data_size,
            ctrl,
            code,
        )->0;
        let differing = (differences(fresh_rle(ctrl, code), whole.len() as int)->0).0;
        assert(data == added_at(whole, 0, differing));
        assert(data[start + k] == (whole[start + k] + differing[start + k]) % 256);
    }
}

/// Where the differences are those between what a patch is made of and some data,
/// the patch makes just that data.
pub proof fn law_differences_restore(
    covers: Seq<CoverHeader>,
    contents: Seq<u8>,
    last_position: int,
    diff: Seq<u8>,
    new_data_size: int,
    ctrl: Seq<u8>,
    code: Seq<u8>,
    wanted: Seq<u8>,
)
    requires
        whole_base(covers, contents, last_position, diff, new_data_size) matches Some(base) && {
            &&& base.len() == wanted.len()
            &&& differences(fresh_rle(ctrl, code), base.len() as int) matches Some((differing, _))
                && forall|i: int|
                0 <= i < base.len() ==> #[trigger] differing[i] == (wanted[i] - base[i]) % 256
        },
    ensures
        new_data_of(covers, contents, last_position, diff, new_data_size, ctrl, code) == Some(
            wanted,
        ),
{
    let base = whole_base(covers, contents, last_position, diff, new_data_size)->0;
    let differing = (differences(fresh_rle(ctrl, code), base.len() as int)->0).0;
    lemma_differences_len(fresh_rle(ctrl, code), base.len() as int);
    assert forall|i: int| 0 <= i < base.len() implies #[trigger] added_at(base, 0, differing)[i]
        == wanted[i] by {
        assert(differing[i] == (wanted[i] - base[i]) % 256);
    }
    assert(added_at(base, 0, differing) =~= wanted);
}

/// How much new data is passed on each time, with the first `n` covers: all
/// that is held back once it is more than the limit, and all behind the last
/// cover. Beside it, what is held back then. `ends` says where the base ends
/// with each number of covers.
pub open spec fn passed_on(covers: Seq<CoverHeader>, ends: Seq<int>, n: int) -> (Seq<i64>, int)
    decreases n,
{
    if n <= 0 {
        (Seq::empty(), 0)
    } else {
        let (reports, held) = passed_on(covers, ends, n - 1);
        let held = held + ends[n] - ends[n - 1];
        if held > MAX_MEM_BUFFER_LIMIT || covers[n - 1].next_cover_index == 0 {
            (reports.push(as_signed(held)), 0)
        } else {
            (reports, held)
        }
    }
}

/// Where the base ends with each number of covers.
pub open spec fn base_ends(
    covers: Seq<CoverHeader>,
    contents: Seq<u8>,
    last_position: int,
    diff: Seq<u8>,
) -> Seq<int> {
    Seq::new(
        covers.len() + 1,
        |i: int|
            (base_of(covers.take(i), contents, last_position, diff)->0).bytes.len() as int,
    )
}

/// How much new data is passed on each time.
pub open spec fn reports_of(
    covers: Seq<CoverHeader>,
    contents: Seq<u8>,
    last_position: int,
    diff: Seq<u8>,
    new_data_size: int,
) -> Seq<i64> {
    let ends = base_ends(covers, contents, last_position, diff);
    let (reports, held) = passed_on(covers, ends, covers.len() as int);
    let base = base_of(covers, contents, last_position, diff)->0;
    if base.back < new_data_size {
        reports.push(as_signed(held + new_data_size - base.back))
    } else {
        reports
    }
}

proof fn lemma_passed_on_grows(covers: Seq<CoverHeader>, ends: Seq<int>, i: int, n: int)
    requires
        i <= n,
    ensures
        passed_on(covers, ends, i).0.is_prefix_of(passed_on(covers, ends, n).0),
    decreases n,
{
    if i < n && n > 0 {
        lemma_passed_on_grows(covers, ends, i, n - 1);
    }
}

/// What is passed on with the first covers, behind `before`, is a front of all that is.
proof fn lemma_passed_on_front(
    covers: Seq<CoverHeader>,
    i: int,
    contents: Seq<u8>,
    last_position: int,
    diff: Seq<u8>,
    new_data_size: int,
    before: Seq<i64>,
)
    requires
        0 <= i <= covers.len(),
    ensures
        ({
            let ends = base_ends(covers, contents, last_position, diff);
            holds_front(
                before,
                before + passed_on(covers, ends, i).0,
                Some(reports_of(covers, contents, last_position, diff, new_data_size)),
            )
        }),
{
    let ends = base_ends(covers, contents, last_position, diff);
    let part = passed_on(covers, ends, i).0;
    let all = reports_of(covers, contents, last_position, diff, new_data_size);
    lemma_passed_on_grows(covers, ends, i, covers.len() as int);
    assert(part.is_prefix_of(all));
    assert((before + part).is_prefix_of(before + all));
}

/// The sum of some numbers.
pub open spec fn total_of(numbers: Seq<i64>) -> int
    decreases numbers.len(),
{
    if numbers.len() == 0 {
        0
    } else {
        total_of(numbers.drop_last()) + numbers.last()
    }
}

/// What is passed on with the first covers, and what is held back then, is all
/// of the base so far.
proof fn lemma_passed_on_total(
    covers: Seq<CoverHeader>,
    n: int,
    contents: Seq<u8>,
    last_position: int,
    diff: Seq<u8>,
)
    requires
        0 <= n <= covers.len(),
        base_of(covers, contents, last_position, diff) is Some,
        (base_of(covers, contents, last_position, diff)->0).bytes.len() <= i64::MAX,
    ensures
        ({
            let ends = base_ends(covers, contents, last_position, diff);
            let (reports, held) = passed_on(covers, ends, n);
            &&& held >= 0
            &&& total_of(reports) >= 0
            &&& total_of(reports) + held == ends[n]
        }),
    decreases n,
{
    let ends = base_ends(covers, contents, last_position, diff);
    if n <= 0 {
        assert(covers.take(0) =~= Seq::empty());
    } else {
        lemma_passed_on_total(covers, n - 1, contents, last_position, diff);
        lemma_base_grows(covers, n, contents, last_position, diff);
        lemma_base_grows(covers.take(n), n - 1, contents, last_position, diff);
        assert(covers.take(n).take(n - 1) =~= covers.take(n - 1));
        let (reports, held) = passed_on(covers, ends, n - 1);
        let held = held + ends[n] - ends[n - 1];
        assert(reports.push(as_signed(held)).drop_last() =~= reports);
    }
}

/// What is passed on adds up to the length of the new data.
pub proof fn law_reports_total(
    covers: Seq<CoverHeader>,
    contents: Seq<u8>,
    last_position: int,
    diff: Seq<u8>,
    new_data_size: int,
    ctrl: Seq<u8>,
    code: Seq<u8>,
)
    requires
        forall|i: int|
            0 <= i < covers.len() ==> (#[trigger] covers[i]).next_cover_index == covers.len() - 1
                - i,
    ensures
        new_data_of(covers, contents, last_position, diff, new_data_size, ctrl, code) matches Some(
            data,
        ) ==> data.len() <= i64::MAX ==> total_of(
            reports_of(covers, contents, last_position, diff, new_data_size),
        ) == data.len(),
{
    if let Some(data) = new_data_of(
        covers,
        contents,
        last_position,
        diff,
        new_data_size,
        ctrl,
        code,
    ) {
        if data.len() <= i64::MAX {
            let base = base_of(covers, contents, last_position, diff)->0;
            let n = covers.len() as int;
            lemma_passed_on_total(covers, n, contents, last_position, diff);
            assert(covers.take(n) =~= covers);
            let ends = base_ends(covers, contents, last_position, diff);
            let (reports, held) = passed_on(covers, ends, n);
            if base.back < new_data_size {
                let last = as_signed(held + new_data_size - base.back);
                assert(reports.push(last).drop_last() =~= reports);
            }
        }
    }
}

/// The streams that a patch is made of: its covers, the control and the code
/// stream of the differences, and the new bytes.
pub struct Clips<S> {
    pub cover: S,
    pub rle_ctrl: S,
    pub rle_code: S,
    pub new_data_diff: S,
}

/// The bytes of the streams that a patch is made of.
pub struct ClipsModel {
    pub cover: Seq<u8>,
    pub rle_ctrl: Seq<u8>,
    pub rle_code: Seq<u8>,
    pub new_data_diff: Seq<u8>,
}

impl<S: ByteSource> Clips<S> {
    /// The bytes that the streams have still to hand out.
    pub open spec fn model(&self) -> ClipsModel {
        ClipsModel {
            cover: self.cover.rest(),
            rle_ctrl: self.rle_ctrl.rest(),
            rle_code: self.rle_code.rest(),
            new_data_diff: self.new_data_diff.rest(),
        }
    }

    /// Whether one of the streams can fail.
    pub open spec fn fallible(&self) -> bool {
        ||| self.cover.fallible()
        ||| self.rle_ctrl.fallible()
        ||| self.rle_code.fallible()
        ||| self.new_data_diff.fallible()
    }
}

/// The new data that the streams of a patch make out of old data.
pub open spec fn patched(
    clips: ClipsModel,
    contents: Seq<u8>,
    last_position: int,
    cover_count: int,
    cover_size: int,
    new_data_size: int,
) -> Option<Seq<u8>> {
    match cover_headers(clips.cover, cover_size, cover_count) {
        None => None,
        Some(covers) => new_data_of(
            covers,
            contents,
            last_position,
            clips.new_data_diff,
            new_data_size,
            clips.rle_ctrl,
            clips.rle_code,
        ),
    }
}

/// How much of the new data that the streams of a patch make is passed on each
/// time.
pub open spec fn patch_reports(
    clips: ClipsModel,
    contents: Seq<u8>,
    last_position: int,
    cover_count: int,
    cover_size: int,
    new_data_size: int,
) -> Seq<i64> {
    reports_of(
        cover_headers(clips.cover, cover_size, cover_count)->0,
        contents,
        last_position,
        clips.new_data_diff,
        new_data_size,
    )
}

/// Whether a path names a directory.
pub open spec fn names_dir(path: Seq<char>) -> bool {
    path.len() == 0 || path.last() == '/'
}

/// A patch in the making.
pub struct PatchCoreImpl {
    pub size_to_be_patched: i64,
    pub size_patched: i64,
    pub path_input: String,
    pub path_output: String,
    pub dir_reference_pair: Option<DirectoryReferencePair>,
    /// How many bytes of new data were passed on each time.
    pub written: Vec<i64>,
}

impl PatchCoreImpl {
    /// Whether this is `other` but for what has been passed on.
    pub open spec fn same_but_for_reports(self, other: Self) -> bool {
        &&& self.size_to_be_patched == other.size_to_be_patched
        &&& self.size_patched == other.size_patched
        &&& self.path_input == other.path_input
        &&& self.path_output == other.path_output
        &&& self.dir_reference_pair == other.dir_reference_pair
    }

    /// Adds what is left of a run of one value to the `copy_length` bytes of
    /// `out_cache` from `pos` on, and moves both behind them.
    pub fn tbytes_set_rle_single(
        rle_loader: &mut RleRefClip,
        out_cache: &mut Vec<u8>,
        pos: &mut usize,
        copy_length: &mut i64,
    )
        requires
            old(rle_loader).mem_set_length >= 0,
            *old(copy_length) >= 0,
            ({
                let n = min(old(rle_loader).mem_set_length as int, *old(copy_length) as int);
                &&& n > 0 && old(rle_loader).mem_set_value != 0 ==> *old(pos) + n <= old(out_cache)@.len()
                &&& *old(pos) + n <= usize::MAX
            }),
        ensures
            ({
                let n = min(old(rle_loader).mem_set_length as int, *old(copy_length) as int);
                &&& final(out_cache)@ == added_at(
                    old(out_cache)@,
                    *old(pos) as int,
                    Seq::new(n as nat, |i: int| old(rle_loader).mem_set_value),
                )
                &&& *final(pos) == *old(pos) + n
                &&& *final(copy_length) == *old(copy_length) - n
                &&& *final(rle_loader) == (RleRefClip {
                    mem_set_length: (old(rle_loader).mem_set_length - n) as i64,
                    ..*old(rle_loader)
                })
            }),
    {
        let mem_set_step = if rle_loader.mem_set_length < *copy_length {
            rle_loader.mem_set_length
        } else {
            *copy_length
        };
        assert(out_cache@.len() == out_cache.len());
        if rle_loader.mem_set_value != 0 && mem_set_step > 0 {
            add_value(out_cache, *pos, mem_set_step as usize, rle_loader.mem_set_value);
        } else {
            assert(out_cache@ =~= added_at(
                out_cache@,
                *pos as int,
                Seq::new(mem_set_step as nat, |i: int| rle_loader.mem_set_value),
            ));
        }
        *pos = *pos + mem_set_step as usize;
        *copy_length = *copy_length - mem_set_step;
        rle_loader.mem_set_length = rle_loader.mem_set_length - mem_set_step;
    }

    /// Adds what is left of the open run to the `copy_length` bytes of
    /// `out_cache` from `pos` on, and moves behind them.
    pub fn tbytes_set_rle<S: ByteSource>(
        rle_loader: &mut RleRefClip,
        out_cache: &mut Vec<u8>,
        pos: &mut usize,
        copy_length: &mut i64,
        shared_buffer: &mut Vec<u8>,
        rle_code_stream: &mut S,
    ) -> (r: Result<(), PatchError>)
        requires
            old(rle_loader).mem_set_length >= 0,
            old(rle_loader).mem_copy_length >= 0,
            *old(copy_length) >= 0,
            ({
                let n = *old(copy_length) as int;
                let a = min(old(rle_loader).mem_set_length as int, n);
                let b = min(old(rle_loader).mem_copy_length as int, n - a);
                &&& a > 0 && old(rle_loader).mem_set_value != 0 ==> *old(pos) + a
                    <= old(out_cache)@.len()
                &&& b > 0 ==> *old(pos) + a + b <= old(out_cache)@.len()
                &&& *old(pos) + a + b <= usize::MAX
            }),
        ensures
            final(rle_code_stream).fallible() == old(rle_code_stream).fallible(),
            final(rle_code_stream).base() == old(rle_code_stream).base(),
            ({
                let n = *old(copy_length) as int;
                let a = min(old(rle_loader).mem_set_length as int, n);
                let b = min(old(rle_loader).mem_copy_length as int, n - a);
                match r {
                    Ok(_) => {
                        &&& b <= old(rle_code_stream).rest().len()
                        &&& final(out_cache)@ == added_at(
                            old(out_cache)@,
                            *old(pos) as int,
                            Seq::new(a as nat, |i: int| old(rle_loader).mem_set_value) + old(
                                rle_code_stream,
                            ).rest().take(b),
                        )
                        &&& *final(pos) == *old(pos) + a + b
                        &&& *final(copy_length) == n - a - b
                        &&& *final(rle_loader) == (RleRefClip {
                            mem_set_length: (old(rle_loader).mem_set_length - a) as i64,
                            mem_copy_length: (old(rle_loader).mem_copy_length - b) as i64,
                            ..*old(rle_loader)
                        })
                        &&& final(rle_code_stream).rest() == old(rle_code_stream).rest().skip(b)
                    },
                    Err(e) => {
                        ||| e == PatchError::Malformed && b > old(rle_code_stream).rest().len()
                        ||| old(rle_code_stream).fallible() && e == PatchError::Decoder
                    },
                }
            }),
    {
        let ghost first = Seq::new(
            min(rle_loader.mem_set_length as int, *copy_length as int) as nat,
            |i: int| rle_loader.mem_set_value,
        );
        Self::tbytes_set_rle_single(rle_loader, out_cache, pos, copy_length);
        let ghost rest = rle_code_stream.rest();
        if rle_loader.mem_copy_length == 0 || *copy_length == 0 {
            proof {
                assert(rest.skip(0) =~= rest);
                assert(first + rest.take(0) =~= first);
            }
            return Ok(());
        }
        let decode_step = if rle_loader.mem_copy_length < *copy_length {
            rle_loader.mem_copy_length
        } else {
            *copy_length
        };
        shared_buffer.clear();
        match read_exact_onto(rle_code_stream, decode_step as u64, shared_buffer) {
            Ok(_) => {},
            Err(e) => return Err(no_answer(e)),
        }
        let ghost second = rest.take(decode_step as int);
        assert(shared_buffer@ =~= second);
        assert(out_cache@.len() == out_cache.len());
        proof {
            lemma_added_twice(old(out_cache)@, *old(pos) as int, first, second);
        }
        add_bytes(out_cache, *pos, shared_buffer.as_slice());
        rle_loader.mem_copy_length = rle_loader.mem_copy_length - decode_step;
        *copy_length = *copy_length - decode_step;
        *pos = *pos + decode_step as usize;
        Ok(())
    }

    /// Opens the run that the control stream gives next.
    fn open_next_run<S: ByteSource>(
        rle_loader: &mut RleRefClip,
        rle_ctrl_stream: &mut S,
        rle_code_stream: &mut S,
    ) -> (r: Result<(), PatchError>)
        ensures
            final(rle_ctrl_stream).fallible() == old(rle_ctrl_stream).fallible(),
            final(rle_code_stream).fallible() == old(rle_code_stream).fallible(),
            match r {
                Ok(_) => next_run(
                    rle_model(*old(rle_loader), *old(rle_ctrl_stream), *old(rle_code_stream)),
                ) == Some(
                    rle_model(*final(rle_loader), *final(rle_ctrl_stream), *final(rle_code_stream)),
                ),
                Err(e) => {
                    ||| e == PatchError::Malformed && next_run(
                        rle_model(*old(rle_loader), *old(rle_ctrl_stream), *old(rle_code_stream)),
                    ) is None
                    ||| e == PatchError::Decoder && (old(rle_ctrl_stream).fallible() || old(
                        rle_code_stream,
                    ).fallible())
                },
            },
    {
        let p_sign = match read_byte(rle_ctrl_stream) {
            Ok(b) => b,
            Err(e) => return Err(no_answer(e)),
        };
        let rle_type = p_sign / 64;
        let length = match read_long_7bit_tagged(rle_ctrl_stream, K_BYTE_RLE_TYPE, p_sign) {
            Ok(v) => v,
            Err(e) => return Err(no_answer(e)),
        };
        if length < -1 || length == i64::MAX {
            return Err(PatchError::Malformed);
        }
        let length = length + 1;
        if rle_type == 3 {
            rle_loader.mem_copy_length = length;
            return Ok(());
        }
        if rle_type == 2 {
            let value = match read_byte(rle_code_stream) {
                Ok(b) => b,
                Err(e) => return Err(no_answer(e)),
            };
            rle_loader.mem_set_length = length;
            rle_loader.mem_set_value = value;
            return Ok(());
        }
        rle_loader.mem_set_length = length;
        rle_loader.mem_set_value = if rle_type == 1 {
            255
        } else {
            0
        };
        Ok(())
    }

    /// Adds the next differences to the `copy_length` bytes of `out_cache` from
    /// `pos` on.
    pub fn tbytes_determine_rle_type<S: ByteSource>(
        rle_loader: &mut RleRefClip,
        out_cache: &mut Vec<u8>,
        pos: usize,
        copy_length: i64,
        shared_buffer: &mut Vec<u8>,
        rle_ctrl_stream: &mut S,
        rle_code_stream: &mut S,
    ) -> (r: Result<(), PatchError>)
        requires
            old(rle_loader).mem_set_length >= 0,
            old(rle_loader).mem_copy_length >= 0,
            copy_length >= 0,
            pos + copy_length <= old(out_cache)@.len(),
        ensures
            final(rle_ctrl_stream).fallible() == old(rle_ctrl_stream).fallible(),
            final(rle_code_stream).fallible() == old(rle_code_stream).fallible(),
            ({
                let st = rle_model(
                    *old(rle_loader),
                    *old(rle_ctrl_stream),
                    *old(rle_code_stream),
                );
                match r {
                    Ok(_) => differences(st, copy_length as int) matches Some((bytes, st1)) && {
                        &&& final(out_cache)@ == added_at(old(out_cache)@, pos as int, bytes)
                        &&& rle_model(
                            *final(rle_loader),
                            *final(rle_ctrl_stream),
                            *final(rle_code_stream),
                        ) == st1
                    },
                    Err(e) => {
                        ||| e == PatchError::Malformed && differences(
                            st,
                            copy_length as int,
                        ) is None
                        ||| e == PatchError::Decoder && (old(rle_ctrl_stream).fallible() || old(
                            rle_code_stream,
                        ).fallible())
                    },
                }
            }),
    {
        let ghost st0 = rle_model(*rle_loader, *rle_ctrl_stream, *rle_code_stream);
        let ghost n = copy_length as int;
        let ghost cache0 = out_cache@;
        let mut at: usize = pos;
        let mut left: i64 = copy_length;
        proof {
            lemma_differences_resumed(st0, n);
        }
        let ghost mut done: Seq<u8> = (open_run(st0, n)->0).0;
        assert(out_cache@.len() == out_cache.len());
        Self::tbytes_set_rle(
            rle_loader,
            out_cache,
            &mut at,
            &mut left,
            shared_buffer,
            rle_code_stream,
        )?;
        while left > 0
            invariant
                0 <= left,
                n == copy_length,
                st0 == rle_model(*old(rle_loader), *old(rle_ctrl_stream), *old(rle_code_stream)),
                pos + copy_length <= cache0.len(),
                done.len() + left == n,
                at == pos + done.len(),
                rle_ctrl_stream.fallible() == old(rle_ctrl_stream).fallible(),
                rle_code_stream.fallible() == old(rle_code_stream).fallible(),
                rle_loader.mem_set_length >= 0,
                rle_loader.mem_copy_length >= 0,
                out_cache@ == added_at(cache0, pos as int, done),
                differences(st0, n) == behind(
                    done,
                    resumed(
                        rle_model(*rle_loader, *rle_ctrl_stream, *rle_code_stream),
                        left as int,
                    ),
                ),
            decreases rle_ctrl_stream.rest().len(), left,
        {
            proof {
                crate::rle::lemma_next_run_shrinks(
                    rle_model(*rle_loader, *rle_ctrl_stream, *rle_code_stream),
                );
            }
            Self::open_next_run(rle_loader, rle_ctrl_stream, rle_code_stream)?;
            let ghost st2 = rle_model(*rle_loader, *rle_ctrl_stream, *rle_code_stream);
            let ghost before = left as int;
            proof {
                lemma_differences_resumed(st2, before);
            }
            assert(out_cache@.len() == out_cache.len());
            Self::tbytes_set_rle(
                rle_loader,
                out_cache,
                &mut at,
                &mut left,
                shared_buffer,
                rle_code_stream,
            )?;
            proof {
                let (bytes, st3) = open_run(st2, before)->0;
                lemma_added_twice(cache0, pos as int, done, bytes);
                if let Some((more, st4)) = resumed(st3, left as int) {
                    assert(done + (bytes + more) =~= done + bytes + more);
                }
                done = done + bytes;
            }
        }
        proof {
            assert(done + Seq::<u8>::empty() =~= done);
        }
        Ok(())
    }

    /// Appends the old data under a cover to `out_cache` and adds the next
    /// differences to it.
    fn tbytes_copy_old_clip_patch<S: ByteSource, I: SeekableRead>(
        out_cache: &mut Vec<u8>,
        input_stream: &mut I,
        rle_loader: &mut RleRefClip,
        cover: CoverHeader,
        shared_buffer: &mut Vec<u8>,
        rle_ctrl_stream: &mut S,
        rle_code_stream: &mut S,
    ) -> (r: Result<(), PatchError>)
        requires
            old(rle_loader).mem_set_length >= 0,
            old(rle_loader).mem_copy_length >= 0,
            old(input_stream).well_formed(),
        ensures
            final(rle_ctrl_stream).fallible() == old(rle_ctrl_stream).fallible(),
            final(rle_code_stream).fallible() == old(rle_code_stream).fallible(),
            final(input_stream).well_formed(),
            final(input_stream).contents() == old(input_stream).contents(),
            final(input_stream).last_position() == old(input_stream).last_position(),
            ({
                let st = rle_model(
                    *old(rle_loader),
                    *old(rle_ctrl_stream),
                    *old(rle_code_stream),
                );
                let bytes = covered(
                    old(input_stream).contents(),
                    old(input_stream).last_position(),
                    cover,
                );
                match r {
                    Ok(_) => {
                        &&& bytes is Some
                        &&& differences(st, bytes->0.len() as int) matches Some((more, st1)) && {
                            &&& final(out_cache)@ == old(out_cache)@ + added_at(bytes->0, 0, more)
                            &&& rle_model(
                                *final(rle_loader),
                                *final(rle_ctrl_stream),
                                *final(rle_code_stream),
                            ) == st1
                        }
                    },
                    Err(e) => {
                        ||| e == PatchError::Malformed && (bytes is None || differences(
                            st,
                            bytes->0.len() as int,
                        ) is None)
                        ||| e == PatchError::Decoder && (old(rle_ctrl_stream).fallible() || old(
                            rle_code_stream,
                        ).fallible())
                    },
                }
            }),
    {
        if cover.cover_length < 0 {
            return Err(PatchError::Malformed);
        }
        let last_pos = out_cache.len();
        match input_stream.read_range_onto(
            to_unsigned(cover.old_pos),
            cover.cover_length as u64,
            out_cache,
        ) {
            Ok(_) => {},
            Err(_) => return Err(PatchError::Malformed),
        }
        let ghost bytes = covered(
            old(input_stream).contents(),
            old(input_stream).last_position(),
            cover,
        )->0;
        let ghost st = rle_model(*rle_loader, *rle_ctrl_stream, *rle_code_stream);
        Self::tbytes_determine_rle_type(
            rle_loader,
            out_cache,
            last_pos,
            cover.cover_length,
            shared_buffer,
            rle_ctrl_stream,
            rle_code_stream,
        )?;
        proof {
            lemma_differences_len(st, cover.cover_length as int);
            let more = (differences(st, cover.cover_length as int)->0).0;
            assert(added_at(old(out_cache)@ + bytes, last_pos as int, more) =~= old(out_cache)@
                + added_at(bytes, 0, more));
        }
        Ok(())
    }

    /// Appends `copy_length` new bytes to `out_cache` and adds the next
    /// differences to them.
    fn tbytes_copy_stream_from_old_clip<S: ByteSource>(
        out_cache: &mut Vec<u8>,
        copy_reader: &mut S,
        copy_length: i64,
        rle_loader: &mut RleRefClip,
        shared_buffer: &mut Vec<u8>,
        rle_ctrl_stream: &mut S,
        rle_code_stream: &mut S,
    ) -> (r: Result<(), PatchError>)
        requires
            old(rle_loader).mem_set_length >= 0,
            old(rle_loader).mem_copy_length >= 0,
            copy_length >= 0,
        ensures
            final(rle_ctrl_stream).fallible() == old(rle_ctrl_stream).fallible(),
            final(rle_code_stream).fallible() == old(rle_code_stream).fallible(),
            final(copy_reader).fallible() == old(copy_reader).fallible(),
            ({
                let st = rle_model(
                    *old(rle_loader),
                    *old(rle_ctrl_stream),
                    *old(rle_code_stream),
                );
                let n = copy_length as int;
                match r {
                    Ok(_) => {
                        &&& n <= old(copy_reader).rest().len()
                        &&& final(copy_reader).rest() == old(copy_reader).rest().skip(n)
                        &&& differences(st, n) matches Some((more, st1)) && {
                            &&& final(out_cache)@ == old(out_cache)@ + added_at(
                                old(copy_reader).rest().take(n),
                                0,
                                more,
                            )
                            &&& rle_model(
                                *final(rle_loader),
                                *final(rle_ctrl_stream),
                                *final(rle_code_stream),
                            ) == st1
                        }
                    },
                    Err(e) => {
                        ||| e == PatchError::Malformed && (n > old(copy_reader).rest().len()
                            || differences(st, n) is None)
                        ||| e == PatchError::Decoder && (old(rle_ctrl_stream).fallible() || old(
                            rle_code_stream,
                        ).fallible() || old(copy_reader).fallible())
                    },
                }
            }),
    {
        let last_pos = out_cache.len();
        match read_exact_onto(copy_reader, copy_length as u64, out_cache) {
            Ok(_) => {},
            Err(e) => return Err(no_answer(e)),
        }
        let ghost bytes = old(copy_reader).rest().take(copy_length as int);
        let ghost st = rle_model(*rle_loader, *rle_ctrl_stream, *rle_code_stream);
        Self::tbytes_determine_rle_type(
            rle_loader,
            out_cache,
            last_pos,
            copy_length,
            shared_buffer,
            rle_ctrl_stream,
            rle_code_stream,
        )?;
        proof {
            lemma_differences_len(st, copy_length as int);
            let more = (differences(st, copy_length as int)->0).0;
            assert(added_at(old(out_cache)@ + bytes, last_pos as int, more) =~= old(out_cache)@
                + added_at(bytes, 0, more));
        }
        Ok(())
    }

    /// Passes on the new data that is held back.
    fn write_cache_to_output(cache: &mut Vec<u8>, output: &mut Vec<u8>, written: &mut Vec<i64>)
        ensures
            final(output)@ == old(output)@ + old(cache)@,
            final(cache)@ == Seq::<u8>::empty(),
            final(written)@ == old(written)@.push(as_signed(old(cache)@.len() as int)),
    {
        written.push(to_signed(cache.len() as u64));
        output.append(cache);
    }

    /// Appends what a cover and the gap before it make to `out_cache`.
    fn write_cover<S: ByteSource, I: SeekableRead>(
        out_cache: &mut Vec<u8>,
        clips: &mut Clips<S>,
        input_stream: &mut I,
        rle_loader: &mut RleRefClip,
        cover: CoverHeader,
        new_pos_back: i64,
        shared_buffer: &mut Vec<u8>,
    ) -> (r: Result<(), PatchError>)
        requires
            old(rle_loader).mem_set_length >= 0,
            old(rle_loader).mem_copy_length >= 0,
            old(input_stream).well_formed(),
        ensures
            final(clips).fallible() == old(clips).fallible(),
            final(input_stream).well_formed(),
            final(input_stream).contents() == old(input_stream).contents(),
            final(input_stream).last_position() == old(input_stream).last_position(),
            ({
                let st = rle_model(*old(rle_loader), old(clips).rle_ctrl, old(clips).rle_code);
                let b = extended(
                    BaseModel {
                        bytes: Seq::empty(),
                        back: new_pos_back as int,
                        diff: old(clips).new_data_diff.rest(),
                    },
                    old(input_stream).contents(),
                    old(input_stream).last_position(),
                    cover,
                );
                match r {
                    Ok(_) => {
                        &&& b is Some
                        &&& final(clips).new_data_diff.rest() == b->0.diff
                        &&& differences(st, b->0.bytes.len() as int) matches Some((more, st1)) && {
                            &&& final(out_cache)@ == old(out_cache)@ + added_at(
                                b->0.bytes,
                                0,
                                more,
                            )
                            &&& rle_model(
                                *final(rle_loader),
                                final(clips).rle_ctrl,
                                final(clips).rle_code,
                            ) == st1
                        }
                    },
                    Err(e) => {
                        ||| e == PatchError::Malformed && (b is None || differences(
                            st,
                            b->0.bytes.len() as int,
                        ) is None)
                        ||| e == PatchError::Decoder && old(clips).fallible()
                    },
                }
            }),
    {
        let ghost contents = input_stream.contents();
        let ghost last_position = input_stream.last_position();
        let ghost start = BaseModel {
            bytes: Seq::<u8>::empty(),
            back: new_pos_back as int,
            diff: clips.new_data_diff.rest(),
        };
        let ghost st = rle_model(*rle_loader, clips.rle_ctrl, clips.rle_code);
        let ghost b = extended(start, contents, last_position, cover);
        let ghost under = covered(contents, last_position, cover);
        let ghost mut gap: Seq<u8> = Seq::empty();
        let ghost mut gap_more: Seq<u8> = Seq::empty();
        if new_pos_back < cover.new_pos {
            let copy_length = match cover.new_pos.checked_sub(new_pos_back) {
                Some(n) => n,
                None => return Err(PatchError::Malformed),
            };
            proof {
                let n = copy_length as int;
                if n <= start.diff.len() {
                    gap = start.diff.take(n);
                    assert(start.bytes + gap =~= gap);
                    if under is Some {
                        lemma_differences_len(st, n);
                        law_differences_split(st, n, under->0.len() as int);
                    }
                }
            }
            Self::tbytes_copy_stream_from_old_clip(
                out_cache,
                &mut clips.new_data_diff,
                copy_length,
                rle_loader,
                shared_buffer,
                &mut clips.rle_ctrl,
                &mut clips.rle_code,
            )?;
            proof {
                gap_more = (differences(st, copy_length as int)->0).0;
            }
        } else {
            proof {
                assert(added_at(gap, 0, gap_more) =~= Seq::empty());
                assert(out_cache@ + Seq::<u8>::empty() =~= out_cache@);
                if under is Some {
                    law_differences_split(st, 0, under->0.len() as int);
                }
            }
        }
        let ghost st1 = rle_model(*rle_loader, clips.rle_ctrl, clips.rle_code);
        assert(differences(st, gap.len() as int) == Some((gap_more, st1)));
        proof {
            lemma_differences_len(st, gap.len() as int);
        }
        Self::tbytes_copy_old_clip_patch(
            out_cache,
            input_stream,
            rle_loader,
            cover,
            shared_buffer,
            &mut clips.rle_ctrl,
            &mut clips.rle_code,
        )?;
        proof {
            let bytes = under->0;
            lemma_differences_len(st1, bytes.len() as int);
            let more = (differences(st1, bytes.len() as int)->0).0;
            assert(added_at(gap + bytes, 0, gap_more + more) =~= added_at(gap, 0, gap_more)
                + added_at(bytes, 0, more));
            assert(b->0.bytes =~= gap + bytes);
            assert(out_cache@ =~= old(out_cache)@ + added_at(gap + bytes, 0, gap_more + more));
        }
        Ok(())
    }

    /// Makes the new data and appends it to `output_stream`, part by part.
    #[verifier::rlimit(30)]
    fn write_cover_stream_to_output<S: ByteSource, I: SeekableRead>(
        &mut self,
        clips: &mut Clips<S>,
        input_stream: &mut I,
        output_stream: &mut Vec<u8>,
        cover_count: i64,
        cover_size: i64,
        new_data_size: i64,
    ) -> (r: Result<(), PatchError>)
        requires
            old(input_stream).well_formed(),
        ensures
            final(self).same_but_for_reports(*old(self)),
            final(input_stream).well_formed(),
            final(input_stream).contents() == old(input_stream).contents(),
            final(input_stream).last_position() == old(input_stream).last_position(),
            ({
                let contents = old(input_stream).contents();
                let last_position = old(input_stream).last_position();
                let want = patched(
                    old(clips).model(),
                    contents,
                    last_position,
                    cover_count as int,
                    cover_size as int,
                    new_data_size as int,
                );
                let reports = if want is Some {
                    Some(
                        patch_reports(
                            old(clips).model(),
                            contents,
                            last_position,
                            cover_count as int,
                            cover_size as int,
                            new_data_size as int,
                        ),
                    )
                } else {
                    None
                };
                match r {
                    Ok(_) => {
                        &&& want is Some
                        &&& final(output_stream)@ == old(output_stream)@ + want->0
                        &&& final(self).written@ == old(self).written@ + patch_reports(
                            old(clips).model(),
                            contents,
                            last_position,
                            cover_count as int,
                            cover_size as int,
                            new_data_size as int,
                        )
                    },
                    Err(e) => {
                        &&& holds_front(old(output_stream)@, final(output_stream)@, want)
                        &&& holds_front(old(self).written@, final(self).written@, reports)
                        &&& {
                            ||| e == PatchError::Malformed && want is None
                            ||| e == PatchError::Decoder && old(clips).fallible()
                        }
                    },
                }
            }),
    {
        let ghost contents = input_stream.contents();
        let ghost last = input_stream.last_position();
        let ghost diff = clips.new_data_diff.rest();
        let ghost ctrl = clips.rle_ctrl.rest();
        let ghost code = clips.rle_code.rest();
        let ghost st0 = fresh_rle(ctrl, code);
        let ghost size = new_data_size as int;
        let ghost out0 = output_stream@;
        let ghost written0 = self.written@;
        let ghost want = patched(
            clips.model(),
            contents,
            last,
            cover_count as int,
            cover_size as int,
            size,
        );
        let headers = read_cover_headers(&mut clips.cover, cover_size, cover_count)?;
        let ghost covers = headers@;
        let ghost ends = base_ends(covers, contents, last, diff);
        let mut shared_buffer: Vec<u8> = Vec::new();
        let mut cache: Vec<u8> = Vec::new();
        let mut rle_struct = RleRefClip::default();
        let mut new_pos_back: i64 = 0;
        let ghost mut bm = BaseModel { bytes: Seq::<u8>::empty(), back: 0, diff };
        let ghost mut done: Seq<u8> = Seq::empty();
        let mut i: usize = 0;
        proof {
            law_cover_headers_counted(old(clips).cover.rest(), cover_size, cover_count);
            assert(covers.take(0) =~= Seq::empty());
            assert(added_at(bm.bytes, 0, done) =~= Seq::empty());
            assert(output_stream@ + cache@ =~= out0 + Seq::<u8>::empty());
            assert(self.written@ =~= written0 + Seq::<i64>::empty());
        }
        while i < headers.len()
            invariant
                i <= headers@.len(),
                covers == headers@,
                st0 == fresh_rle(ctrl, code),
                ends == base_ends(covers, contents, last, diff),
                size == new_data_size,
                self.same_but_for_reports(*old(self)),
                clips.fallible() == old(clips).fallible(),
                input_stream.well_formed(),
                input_stream.contents() == contents,
                input_stream.last_position() == last,
                contents == old(input_stream).contents(),
                last == old(input_stream).last_position(),
                diff == old(clips).new_data_diff.rest(),
                ctrl == old(clips).rle_ctrl.rest(),
                code == old(clips).rle_code.rest(),
                cover_headers(old(clips).cover.rest(), cover_size as int, cover_count as int)
                    == Some(covers),
                forall|j: int|
                    0 <= j < covers.len() ==> (#[trigger] covers[j]).next_cover_index
                        == covers.len() - 1 - j && fits(covers[j].new_pos + covers[j].cover_length),
                base_of(covers.take(i as int), contents, last, diff) == Some(bm),
                bm.back == new_pos_back,
                bm.diff == clips.new_data_diff.rest(),
                rle_struct.mem_set_length >= 0,
                rle_struct.mem_copy_length >= 0,
                done.len() == bm.bytes.len(),
                differences(st0, bm.bytes.len() as int) == Some(
                    (done, rle_model(rle_struct, clips.rle_ctrl, clips.rle_code)),
                ),
                output_stream@ + cache@ == out0 + added_at(bm.bytes, 0, done),
                out0 == old(output_stream)@,
                want == new_data_of(covers, contents, last, diff, size, ctrl, code),
                want == patched(
                    old(clips).model(),
                    contents,
                    last,
                    cover_count as int,
                    cover_size as int,
                    size,
                ),
                holds_front(out0, output_stream@, want),
                written0 == old(self).written@,
                self.written@ == written0 + passed_on(covers, ends, i as int).0,
                cache@.len() == passed_on(covers, ends, i as int).1,
            decreases headers@.len() - i,
        {
            let cover = headers[i];
            proof {
                lemma_passed_on_front(covers, i as int, contents, last, diff, size, written0);
            }
            let ghost st = rle_model(rle_struct, clips.rle_ctrl, clips.rle_code);
            let ghost e = extended(BaseModel { bytes: Seq::empty(), ..bm }, contents, last, cover);
            let ghost held = cache@;
            proof {
                let upto = covers.take(i + 1);
                assert(upto.drop_last() =~= covers.take(i as int));
                assert(upto.last() == cover);
                lemma_extended_behind(bm, contents, last, cover);
                if e is Some {
                    law_differences_split(
                        st0,
                        bm.bytes.len() as int,
                        e->0.bytes.len() as int,
                    );
                    lemma_differences_len(st, e->0.bytes.len() as int);
                }
                if e is None || differences(st, e->0.bytes.len() as int) is None {
                    lemma_no_new_data(covers, i + 1, contents, last, diff, size, ctrl, code);
                }
            }
            Self::write_cover(
                &mut cache,
                clips,
                input_stream,
                &mut rle_struct,
                cover,
                new_pos_back,
                &mut shared_buffer,
            )?;
            proof {
                let bytes = e->0.bytes;
                let more = (differences(st, bytes.len() as int)->0).0;
                assert(added_at(bm.bytes + bytes, 0, done + more) =~= added_at(bm.bytes, 0, done)
                    + added_at(bytes, 0, more));
                assert(output_stream@ + cache@ =~= output_stream@ + held + added_at(
                    bytes,
                    0,
                    more,
                ));
                assert(output_stream@ + cache@ =~= out0 + added_at(
                    bm.bytes + bytes,
                    0,
                    done + more,
                ));
                assert(ends[i as int] == bm.bytes.len());
                bm = BaseModel { bytes: bm.bytes + bytes, ..e->0 };
                done = done + more;
                assert(ends[i + 1] == bm.bytes.len());
            }
            new_pos_back = cover.new_pos + cover.cover_length;
            i = i + 1;
            let ghost all = output_stream@ + cache@;
            if cache.len() > MAX_MEM_BUFFER_LIMIT || cover.next_cover_index == 0 {
                Self::write_cache_to_output(&mut cache, output_stream, &mut self.written);
                assert(output_stream@ + cache@ =~= all);
                proof {
                    lemma_front_of_new_data(
                        covers,
                        i as int,
                        contents,
                        last,
                        diff,
                        size,
                        ctrl,
                        code,
                    );
                    let front = added_at(bm.bytes, 0, done);
                    assert(output_stream@ =~= out0 + front);
                    assert(out0.is_prefix_of(output_stream@));
                    if let Some(data) = want {
                        assert(front.is_prefix_of(data));
                        assert((out0 + front).is_prefix_of(out0 + data));
                    }
                }
                assert(self.written@ =~= written0 + passed_on(covers, ends, i as int).0);
            }
        }
        assert(covers.take(i as int) =~= covers);
        proof {
            lemma_passed_on_front(covers, i as int, contents, last, diff, size, written0);
        }
        if new_pos_back < new_data_size {
            let copy_length = match new_data_size.checked_sub(new_pos_back) {
                Some(n) => n,
                None => return Err(PatchError::Malformed),
            };
            let ghost st = rle_model(rle_struct, clips.rle_ctrl, clips.rle_code);
            let ghost n = copy_length as int;
            proof {
                law_differences_split(st0, bm.bytes.len() as int, n);
                lemma_differences_len(st, n);
            }
            Self::tbytes_copy_stream_from_old_clip(
                &mut cache,
                &mut clips.new_data_diff,
                copy_length,
                &mut rle_struct,
                &mut shared_buffer,
                &mut clips.rle_ctrl,
                &mut clips.rle_code,
            )?;
            proof {
                let bytes = bm.diff.take(n);
                let more = (differences(st, n)->0).0;
                assert(added_at(bm.bytes + bytes, 0, done + more) =~= added_at(bm.bytes, 0, done)
                    + added_at(bytes, 0, more));
                assert(output_stream@ + cache@ =~= out0 + added_at(
                    bm.bytes + bytes,
                    0,
                    done + more,
                ));
            }
            let ghost all = output_stream@ + cache@;
            Self::write_cache_to_output(&mut cache, output_stream, &mut self.written);
            assert(output_stream@ =~= all);
            assert(self.written@ =~= written0 + reports_of(covers, contents, last, diff, size));
        } else {
            proof {
                // Behind the last cover nothing is held back.
                assert(output_stream@ + cache@ =~= output_stream@);
            }
        }
        Ok(())
    }

    /// Appends the new data that `clips` and the old data make to
    /// `output_stream`.
    pub fn uncover_buffer_clips_stream<S: ByteSource, I: SeekableRead>(
        &mut self,
        clips: &mut Clips<S>,
        input_stream: &mut I,
        output_stream: &mut Vec<u8>,
        header_info: &HeaderInfo,
    ) -> (r: Result<(), PatchError>)
        requires
            old(input_stream).well_formed(),
        ensures
            final(self).same_but_for_reports(*old(self)),
            final(input_stream).well_formed(),
            final(input_stream).contents() == old(input_stream).contents(),
            final(input_stream).last_position() == old(input_stream).last_position(),
            ({
                let contents = old(input_stream).contents();
                let last_position = old(input_stream).last_position();
                let chunk_info = header_info.chunk_info;
                let want = patched(
                    old(clips).model(),
                    contents,
                    last_position,
                    chunk_info.cover_count as int,
                    chunk_info.cover_buf_size as int,
                    header_info.new_data_size as int,
                );
                let reports = if want is Some {
                    Some(
                        patch_reports(
                            old(clips).model(),
                            contents,
                            last_position,
                            chunk_info.cover_count as int,
                            chunk_info.cover_buf_size as int,
                            header_info.new_data_size as int,
                        ),
                    )
                } else {
                    None
                };
                match r {
                    Ok(_) => {
                        &&& want is Some
                        &&& final(output_stream)@ == old(output_stream)@ + want->0
                        &&& final(self).written@ == old(self).written@ + patch_reports(
                            old(clips).model(),
                            contents,
                            last_position,
                            chunk_info.cover_count as int,
                            chunk_info.cover_buf_size as int,
                            header_info.new_data_size as int,
                        )
                    },
                    Err(e) => {
                        &&& holds_front(old(output_stream)@, final(output_stream)@, want)
                        &&& holds_front(old(self).written@, final(self).written@, reports)
                        &&& {
                            ||| e == PatchError::Malformed && want is None
                            ||| e == PatchError::Decoder && old(clips).fallible()
                        }
                    },
                }
            }),
    {
        self.write_cover_stream_to_output(
            clips,
            input_stream,
            output_stream,
            header_info.chunk_info.cover_count,
            header_info.chunk_info.cover_buf_size,
            header_info.new_data_size,
        )
    }

    /// A patch of this size between these paths, with nothing made yet.
    pub fn new(size_to_be_patched: i64, input_path: String, output_path: String) -> (r: Self)
        ensures
            r.size_to_be_patched == size_to_be_patched,
            r.size_patched == 0,
            r.path_input@ == input_path@,
            r.path_output@ == output_path@,
            r.dir_reference_pair is None,
            r.written@ == Seq::<i64>::empty(),
    {
        Self {
            size_to_be_patched,
            size_patched: 0,
            path_input: input_path,
            path_output: output_path,
            dir_reference_pair: None,
            written: Vec::new(),
        }
    }

    /// Hands over the lists of a directory patch.
    pub fn set_directory_reference_pair(&mut self, pair: DirectoryReferencePair)
        ensures
            *final(self) == (Self { dir_reference_pair: Some(pair), ..*old(self) }),
    {
        self.dir_reference_pair = Some(pair);
    }

    /// Sets how much there is to patch, and how much of it is done.
    pub fn set_size_to_be_patched(&mut self, size_to_be_patched: i64, size_to_patch: i64)
        ensures
            *final(self) == (Self {
                size_to_be_patched,
                size_patched: size_to_patch,
                ..*old(self)
            }),
    {
        self.size_to_be_patched = size_to_be_patched;
        self.size_patched = size_to_patch;
    }

    /// The covers of a stream that cannot fail and holds them whole.
    pub fn enumerate_cover_headers<S: ByteSource>(
        cover_reader: &mut S,
        cover_size: i64,
        cover_count: i64,
    ) -> (r: Vec<CoverHeader>)
        requires
            !old(cover_reader).fallible(),
            cover_headers(old(cover_reader).rest(), cover_size as int, cover_count as int) is Some,
        ensures
            cover_headers(old(cover_reader).rest(), cover_size as int, cover_count as int) == Some(
                r@,
            ),
            final(cover_reader).rest() == covers_left(
                old(cover_reader).rest(),
                cover_size as int,
                cover_count as int,
            ),
            final(cover_reader).base() == old(cover_reader).base(),
            !final(cover_reader).fallible(),
    {
        match read_cover_headers(cover_reader, cover_size, cover_count) {
            Ok(headers) => headers,
            Err(_) => Vec::new(),
        }
    }

    /// Whether a path names a directory: it is empty or ends in a slash.
    pub fn is_path_a_dir(input: &str) -> (r: bool)
        ensures
            r == names_dir(input@),
    {
        let len = input.unicode_len();
        len == 0 || input.get_char(len - 1) == '/'
    }
}

} // verus!
