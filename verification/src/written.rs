//! How numbers are written, and the laws that reading a number undoes writing it.
//! The digits in base 128 come most significant first, and each byte but the last
//! has the bit set that says that more follow. The first byte has fewer bits for
//! its digit where its top bits hold a tag.
use crate::error::PatchError;
use crate::parser::{
    boolean_of, byte_of, int_7bit_of, int_7bit_tagged_of, long_7bit_of, long_7bit_tagged_of,
};
use crate::varint::{payload_span, varint_tagged, varint_tail, INT_LIMIT, LONG_LIMIT};
use vstd::prelude::*;

verus! {

/// How many values a digit in a first byte can have beside `tag_bits` bits of tag
/// and the bit that says that more digits follow.
pub open spec fn room(tag_bits: int) -> int
    decreases tag_bits,
{
    if tag_bits <= 0 {
        128
    } else {
        room(tag_bits - 1) / 2
    }
}

/// The digits of `v` behind the tag, every one of them with the bit that says that
/// more follow.
pub open spec fn open_digits(tag_bits: int, tag: int, v: int) -> Seq<u8>
    decreases v,
{
    if v < room(tag_bits) || v <= 0 {
        seq![(tag * 2 * room(tag_bits) + room(tag_bits) + v) as u8]
    } else {
        open_digits(tag_bits, tag, v / 128).push((128 + v % 128) as u8)
    }
}

/// `v` as it is written behind a tag of so many bits.
pub open spec fn tagged_number(tag_bits: int, tag: int, v: int) -> Seq<u8> {
    if v < room(tag_bits) {
        seq![(tag * 2 * room(tag_bits) + v) as u8]
    } else {
        open_digits(tag_bits, tag, v / 128).push((v % 128) as u8)
    }
}

/// `v` as it is written without a tag.
pub open spec fn number(v: int) -> Seq<u8> {
    tagged_number(0, 0, v)
}

/// Whether `tag` is a value of so many bits, with a bit left for whether more
/// digits follow.
pub open spec fn is_tag(tag_bits: int, tag: int) -> bool {
    &&& 0 <= tag_bits <= 7
    &&& 0 <= tag
    &&& (tag + 1) * 2 * room(tag_bits) <= 256
}

/// The signed value that has the bits of an unsigned one.
pub open spec fn signed(v: int) -> int {
    if v <= i64::MAX {
        v
    } else {
        v - u64::MAX - 1
    }
}

/// The unsigned value that has the bits of a signed one.
pub open spec fn unsigned(v: int) -> int {
    if v < 0 {
        v + u64::MAX + 1
    } else {
        v
    }
}

/// The values that a digit in a first byte can have are those that the reader
/// takes it for.
proof fn lemma_room(tag_bits: int)
    requires
        0 <= tag_bits <= 7,
    ensures
        room(tag_bits) == payload_span(tag_bits as u8),
        1 <= room(tag_bits) <= 128,
        room(0) == 128,
        room(1) == 64,
        room(2) == 32,
{
    reveal_with_fuel(room, 9);
}

/// What a first byte is made of.
proof fn lemma_first_byte(tag_bits: int, tag: int, more: int, v: int)
    requires
        is_tag(tag_bits, tag),
        0 <= more <= 1,
        0 <= v < room(tag_bits),
    ensures
        ({
            let span = room(tag_bits);
            let byte = tag * 2 * span + more * span + v;
            &&& 0 <= byte <= 255
            &&& byte / (2 * span) == tag
            &&& byte / span % 2 == more
            &&& byte % span == v
        }),
{
    lemma_room(tag_bits);
    let span = room(tag_bits);
    let byte = tag * 2 * span + more * span + v;
    assert(byte == (tag * 2 + more) * span + v) by (nonlinear_arith)
        requires
            byte == tag * 2 * span + more * span + v,
    ;
    vstd::arithmetic::div_mod::lemma_fundamental_div_mod_converse(byte, span, tag * 2 + more, v);
    assert(byte == tag * (2 * span) + (more * span + v)) by (nonlinear_arith)
        requires
            byte == tag * 2 * span + more * span + v,
    ;
    assert(0 <= more * span + v < 2 * span) by (nonlinear_arith)
        requires
            0 <= more <= 1,
            0 <= v < span,
    ;
    vstd::arithmetic::div_mod::lemma_fundamental_div_mod_converse(
        byte,
        2 * span,
        tag,
        more * span + v,
    );
    assert(0 <= byte <= 255) by (nonlinear_arith)
        requires
            byte == tag * (2 * span) + (more * span + v),
            0 <= more * span + v < 2 * span,
            (tag + 1) * 2 * span <= 256,
            0 <= tag,
            span >= 1,
    ;
}

/// Digits that all say that more follow are read one after the other.
proof fn lemma_open_digits(limit: int, tag_bits: int, tag: int, v: int, rest: Seq<u8>)
    requires
        is_tag(tag_bits, tag),
        0 <= v < limit,
    ensures
        ({
            let s = open_digits(tag_bits, tag, v) + rest;
            &&& open_digits(tag_bits, tag, v).len() > 0
            &&& s[0] as int / (2 * room(tag_bits)) == tag
            &&& varint_tagged(limit, tag_bits as u8, s[0], s.skip(1)) == varint_tail(
                limit,
                v,
                rest,
            )
        }),
    decreases v,
{
    lemma_room(tag_bits);
    let s = open_digits(tag_bits, tag, v) + rest;
    if v < room(tag_bits) {
        lemma_first_byte(tag_bits, tag, 1, v);
        assert(s.skip(1) =~= rest);
    } else {
        let digit = (v % 128 + 128) as u8;
        let more = seq![digit] + rest;
        lemma_open_digits(limit, tag_bits, tag, v / 128, more);
        assert(s =~= open_digits(tag_bits, tag, v / 128) + more);
        assert(more.skip(1) =~= rest);
        assert(v / 128 * 128 + v % 128 == v);
    }
}

/// A written number is read back, whatever its tag is.
proof fn lemma_tagged_number(limit: int, tag_bits: int, tag: int, v: int, rest: Seq<u8>)
    requires
        is_tag(tag_bits, tag),
        1 <= limit,
        0 <= v < limit * 128,
    ensures
        ({
            let s = tagged_number(tag_bits, tag, v) + rest;
            &&& tagged_number(tag_bits, tag, v).len() > 0
            &&& s[0] as int / (2 * room(tag_bits)) == tag
            &&& varint_tagged(limit, tag_bits as u8, s[0], s.skip(1)) == Some((v, rest))
        }),
{
    lemma_room(tag_bits);
    let s = tagged_number(tag_bits, tag, v) + rest;
    if v < room(tag_bits) {
        lemma_first_byte(tag_bits, tag, 0, v);
        assert(s.skip(1) =~= rest);
    } else {
        let more = seq![(v % 128) as u8] + rest;
        lemma_open_digits(limit, tag_bits, tag, v / 128, more);
        assert(s =~= open_digits(tag_bits, tag, v / 128) + more);
        assert(more.skip(1) =~= rest);
        assert(v / 128 * 128 + v % 128 == v);
    }
}

/// Reading undoes writing for tagged numbers: the first byte gives the tag back, and
/// it gives the number with the bytes that were written behind it. What stands
/// behind the number is left.
pub proof fn law_tagged_number_read_back(tag_bits: u8, tag: int, v: int, rest: Seq<u8>)
    requires
        is_tag(tag_bits as int, tag),
        0 <= v <= u64::MAX,
    ensures
        ({
            let s = tagged_number(tag_bits as int, tag, v) + rest;
            &&& s.len() > rest.len()
            &&& s[0] as int / (2 * room(tag_bits as int)) == tag
            &&& byte_of(s) == Ok::<(u8, Seq<u8>), PatchError>((s[0], s.skip(1)))
            &&& long_7bit_tagged_of(tag_bits, s[0], s.skip(1)) == Ok::<(i64, Seq<u8>), PatchError>(
                (signed(v) as i64, rest),
            )
        }),
{
    lemma_tagged_number(LONG_LIMIT as int, tag_bits as int, tag, v, rest);
}

/// Reading undoes writing for numbers without a tag.
pub proof fn law_number_read_back(v: int, rest: Seq<u8>)
    requires
        0 <= v <= u64::MAX,
    ensures
        long_7bit_of(number(v) + rest) == Ok::<(i64, Seq<u8>), PatchError>(
            (signed(v) as i64, rest),
        ),
        number(v).len() > 0,
{
    reveal_with_fuel(room, 2);
    law_tagged_number_read_back(0, 0, v, rest);
}

/// Reading undoes writing for signed values, negative ones among them, with a tag of
/// one bit or none.
#[verifier::rlimit(40)]
pub proof fn law_signed_number_read_back(tag: int, v: i64, rest: Seq<u8>)
    requires
        0 <= tag <= 1,
    ensures
        long_7bit_of(number(unsigned(v as int)) + rest) == Ok::<(i64, Seq<u8>), PatchError>(
            (v, rest),
        ),
        number(unsigned(v as int)).len() > 0,
        ({
            let s = tagged_number(1, tag, unsigned(v as int)) + rest;
            &&& s.len() > rest.len()
            &&& s[0] < 128 <==> tag == 0
            &&& byte_of(s) == Ok::<(u8, Seq<u8>), PatchError>((s[0], s.skip(1)))
            &&& long_7bit_tagged_of(1, s[0], s.skip(1)) == Ok::<(i64, Seq<u8>), PatchError>(
                (v, rest),
            )
        }),
{
    reveal_with_fuel(room, 3);
    law_number_read_back(unsigned(v as int), rest);
    assert(is_tag(1, tag));
    law_tagged_number_read_back(1, tag, unsigned(v as int), rest);
    let s = tagged_number(1, tag, unsigned(v as int)) + rest;
    assert(room(1) == 64);
    assert(s[0] as int / (2 * room(1)) == tag);
    assert(s[0] as int / 128 == tag);
    assert(signed(unsigned(v as int)) == v);
}

/// Reading undoes writing for the short numbers, of two bytes, tagged or not.
pub proof fn law_short_number_read_back(tag_bits: u8, tag: int, v: int, rest: Seq<u8>)
    requires
        is_tag(tag_bits as int, tag),
        0 <= v < 65536,
    ensures
        ({
            let s = tagged_number(tag_bits as int, tag, v) + rest;
            int_7bit_tagged_of(tag_bits, s[0], s.skip(1)) == Ok::<(i32, Seq<u8>), PatchError>(
                (v as i32, rest),
            )
        }),
        int_7bit_of(number(v) + rest) == Ok::<(i32, Seq<u8>), PatchError>((v as i32, rest)),
{
    reveal_with_fuel(room, 2);
    lemma_tagged_number(INT_LIMIT as int, tag_bits as int, tag, v, rest);
    lemma_tagged_number(INT_LIMIT as int, 0, 0, v, rest);
}

/// Where open digits are cut short, the bytes run out.
proof fn lemma_open_digits_cut(limit: int, tag_bits: int, tag: int, v: int, n: int)
    requires
        is_tag(tag_bits, tag),
        0 <= v < limit,
        0 < n <= open_digits(tag_bits, tag, v).len(),
    ensures
        ({
            let s = open_digits(tag_bits, tag, v).take(n);
            varint_tagged(limit, tag_bits as u8, s[0], s.skip(1)) is None
        }),
    decreases v,
{
    lemma_room(tag_bits);
    let all = open_digits(tag_bits, tag, v);
    lemma_open_digits(limit, tag_bits, tag, v, Seq::empty());
    if n == all.len() {
        assert(all.take(n) =~= all + Seq::<u8>::empty());
    } else {
        let fewer = open_digits(tag_bits, tag, v / 128);
        lemma_open_digits_cut(limit, tag_bits, tag, v / 128, n);
        assert(all.take(n) =~= fewer.take(n));
    }
}

/// A number of which the last bytes are missing is not read: the bytes run out.
pub proof fn law_number_cut_short(tag_bits: u8, tag: int, v: int, n: int)
    requires
        is_tag(tag_bits as int, tag),
        0 <= v <= u64::MAX,
        0 < n < tagged_number(tag_bits as int, tag, v).len(),
    ensures
        ({
            let s = tagged_number(tag_bits as int, tag, v).take(n);
            long_7bit_tagged_of(tag_bits, s[0], s.skip(1)) == Err::<(i64, Seq<u8>), PatchError>(
                PatchError::UnexpectedEof,
            )
        }),
{
    lemma_room(tag_bits as int);
    let all = tagged_number(tag_bits as int, tag, v);
    let fewer = open_digits(tag_bits as int, tag, v / 128);
    lemma_open_digits_cut(LONG_LIMIT as int, tag_bits as int, tag, v / 128, n);
    assert(all.take(n) =~= fewer.take(n));
}

/// A truth value is one byte, of which zero alone stands for what does not hold.
pub proof fn law_boolean_read_back(byte: u8, rest: Seq<u8>)
    ensures
        boolean_of(seq![byte] + rest) == Ok::<(bool, Seq<u8>), PatchError>((byte > 0, rest)),
{
    assert((seq![byte] + rest).skip(1) =~= rest);
}

} // verus!
