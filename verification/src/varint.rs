//! The variable-length integers of the HDiff formats: big-endian digits in
//! base 128, seven bits a byte, the high bit set on every byte but the last.
//! The first byte may give up its top bits to a tag.
use vstd::prelude::*;

verus! {

/// The accumulator bound from which a 64-bit integer takes no further digit.
pub const LONG_LIMIT: u64 = 0x0200_0000_0000_0000;

/// The accumulator bound from which a 32-bit integer takes no further digit.
pub const INT_LIMIT: u64 = 0x200;

/// The number of values that the payload of a first byte can have, where the
/// top `tag_bit` bits of the byte are a tag and the next one says whether more
/// digits follow.
pub open spec fn payload_span(tag_bit: u8) -> int {
    if tag_bit == 0 {
        128
    } else if tag_bit == 1 {
        64
    } else if tag_bit == 2 {
        32
    } else if tag_bit == 3 {
        16
    } else if tag_bit == 4 {
        8
    } else if tag_bit == 5 {
        4
    } else if tag_bit == 6 {
        2
    } else {
        1
    }
}

/// The digits that follow the first byte, read behind the value `acc`, and the
/// bytes that are left. A value that has reached `limit` before its last digit
/// reads as zero. `None` where the bytes run out.
pub open spec fn varint_tail(limit: int, acc: int, rest: Seq<u8>) -> Option<(int, Seq<u8>)>
    decreases rest.len(),
{
    if acc >= limit {
        Some((0, rest))
    } else if rest.len() == 0 {
        None
    } else {
        let next = acc * 128 + rest[0] as int % 128;
        if rest[0] < 128 {
            Some((next, rest.skip(1)))
        } else {
            varint_tail(limit, next, rest.skip(1))
        }
    }
}

/// The integer whose first byte is `code`, and the bytes that are left of those
/// behind it.
pub open spec fn varint_tagged(limit: int, tag_bit: u8, code: u8, rest: Seq<u8>) -> Option<
    (int, Seq<u8>),
> {
    let span = payload_span(tag_bit);
    if code as int / span % 2 == 0 {
        Some((code as int % span, rest))
    } else {
        varint_tail(limit, code as int % span, rest)
    }
}

/// The 64-bit integer at the front of `rest`, without a tag.
pub open spec fn varint(rest: Seq<u8>) -> Option<(int, Seq<u8>)> {
    if rest.len() == 0 {
        None
    } else {
        varint_tagged(LONG_LIMIT as int, 0, rest[0], rest.skip(1))
    }
}

/// Whether an `i64` holds `v`.
pub open spec fn fits(v: int) -> bool {
    i64::MIN <= v <= i64::MAX
}

/// The `i64` that has the same bits as the unsigned `v`.
pub open spec fn as_signed(v: int) -> i64 {
    if v < 0x8000_0000_0000_0000 {
        v as i64
    } else {
        (v - 0x1_0000_0000_0000_0000) as i64
    }
}

/// The `u64` that has the same bits as the signed `v`.
pub open spec fn as_unsigned(v: i64) -> u64 {
    if v >= 0 {
        v as u64
    } else {
        (v + 0x1_0000_0000_0000_0000) as u64
    }
}

/// Values that the digits give stay within 64 bits, and the bytes left are
/// never more than there were.
pub proof fn lemma_varint_tail_bounds(limit: int, acc: int, rest: Seq<u8>)
    requires
        limit <= LONG_LIMIT,
        0 <= acc,
    ensures
        varint_tail(limit, acc, rest) matches Some((v, left)) ==> {
            &&& 0 <= v <= u64::MAX
            &&& left.len() <= rest.len()
            &&& left == rest.skip(rest.len() - left.len())
        },
    decreases rest.len(),
{
    if acc >= limit {
        assert(rest.skip(0) =~= rest);
    } else if rest.len() != 0 && rest[0] >= 128 {
        let next = acc * 128 + rest[0] as int % 128;
        lemma_varint_tail_bounds(limit, next, rest.skip(1));
        if let Some((v, left)) = varint_tail(limit, next, rest.skip(1)) {
            assert(left =~= rest.skip(rest.len() - left.len()));
        }
    }
}

/// The value of a tagged integer fits in 64 bits, and what is left is the end
/// of the bytes behind the first one.
pub proof fn lemma_varint_tagged_bounds(limit: int, tag_bit: u8, code: u8, rest: Seq<u8>)
    requires
        limit <= LONG_LIMIT,
    ensures
        varint_tagged(limit, tag_bit, code, rest) matches Some((v, left)) ==> {
            &&& 0 <= v <= u64::MAX
            &&& left.len() <= rest.len()
            &&& left == rest.skip(rest.len() - left.len())
        },
{
    let span = payload_span(tag_bit);
    lemma_varint_tail_bounds(limit, code as int % span, rest);
    assert(rest.skip(0) =~= rest);
}

/// The digits of `v` in base 128, the most significant first, each but the
/// last with its high bit set: `v` as an integer without a tag.
pub open spec fn varint_bytes(v: int) -> Seq<u8>
    decreases v,
{
    if v < 128 {
        seq![v as u8]
    } else {
        leading_digits(v / 128).push((v % 128) as u8)
    }
}

/// The digits of `v` in base 128, every one with its high bit set.
pub open spec fn leading_digits(v: int) -> Seq<u8>
    decreases v,
{
    if v < 128 {
        seq![(v + 128) as u8]
    } else {
        leading_digits(v / 128).push((v % 128 + 128) as u8)
    }
}

/// Digits that all say that more follow are read one after the other.
proof fn lemma_leading_digits(v: int, rest: Seq<u8>)
    requires
        0 <= v < LONG_LIMIT,
    ensures
        varint(leading_digits(v) + rest) == varint_tail(LONG_LIMIT as int, v, rest),
        leading_digits(v).len() > 0,
    decreases v,
{
    if v < 128 {
        let s = leading_digits(v) + rest;
        assert(s.skip(1) =~= rest);
    } else {
        let digit = (v % 128 + 128) as u8;
        let more = seq![digit] + rest;
        lemma_leading_digits(v / 128, more);
        assert(leading_digits(v) + rest =~= leading_digits(v / 128) + more);
        assert(more.skip(1) =~= rest);
        assert(v / 128 * 128 + v % 128 == v);
    }
}

/// Reading undoes writing: every 64-bit value, written as an integer without a
/// tag, is read back with the bytes behind it untouched.
pub proof fn law_varint_round_trip(v: u64, rest: Seq<u8>)
    ensures
        varint(varint_bytes(v as int) + rest) == Some((v as int, rest)),
{
    let s = varint_bytes(v as int) + rest;
    if v < 128 {
        assert(s.skip(1) =~= rest);
    } else {
        let more = seq![(v % 128) as u8] + rest;
        lemma_leading_digits(v as int / 128, more);
        assert(s =~= leading_digits(v as int / 128) + more);
        assert(more.skip(1) =~= rest);
    }
}

/// What is read depends on the bytes that are read alone: further bytes at the
/// end are left over.
pub proof fn law_varint_reads_no_further(rest: Seq<u8>, more: Seq<u8>)
    ensures
        varint(rest) matches Some((v, left)) ==> varint(rest + more) == Some((v, left + more)),
{
    if rest.len() > 0 {
        lemma_tail_reads_no_further(LONG_LIMIT as int, rest[0] as int % 128, rest.skip(1), more);
        assert((rest + more).skip(1) =~= rest.skip(1) + more);
    }
}

/// The same holds of an integer with a tag.
pub proof fn law_tagged_reads_no_further(
    limit: int,
    tag_bit: u8,
    code: u8,
    rest: Seq<u8>,
    more: Seq<u8>,
)
    ensures
        varint_tagged(limit, tag_bit, code, rest) matches Some((v, left)) ==> varint_tagged(
            limit,
            tag_bit,
            code,
            rest + more,
        ) == Some((v, left + more)),
{
    lemma_tail_reads_no_further(limit, code as int % payload_span(tag_bit), rest, more);
}

proof fn lemma_tail_reads_no_further(limit: int, acc: int, rest: Seq<u8>, more: Seq<u8>)
    ensures
        varint_tail(limit, acc, rest) matches Some((v, left)) ==> varint_tail(
            limit,
            acc,
            rest + more,
        ) == Some((v, left + more)),
    decreases rest.len(),
{
    if acc < limit && rest.len() > 0 {
        assert((rest + more).skip(1) =~= rest.skip(1) + more);
        lemma_tail_reads_no_further(
            limit,
            acc * 128 + rest[0] as int % 128,
            rest.skip(1),
            more,
        );
    }
}

/// The `i64` with the bits of `v`.
pub fn to_signed(v: u64) -> (r: i64)
    ensures
        r == as_signed(v as int),
{
    if v < 0x8000_0000_0000_0000 {
        v as i64
    } else {
        -((u64::MAX - v) as i64) - 1
    }
}

/// The `u64` with the bits of `v`.
pub fn to_unsigned(v: i64) -> (r: u64)
    ensures
        r == as_unsigned(v),
{
    if v >= 0 {
        v as u64
    } else {
        u64::MAX - (-(v + 1)) as u64
    }
}

} // verus!
