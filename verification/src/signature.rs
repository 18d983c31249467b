//! The signature line that a patch starts with: its parts, and the version
//! number in the first of them.
use crate::error::PatchError;
use crate::text::same_text;
use vstd::prelude::*;

verus! {

/// The character between the parts of a signature.
pub const PART_DELIM: char = '&';

/// The parts of a signature: what stands before the first `&`, between each two
/// and behind the last.
pub open spec fn parts_of(line: Seq<char>) -> Seq<Seq<char>>
    decreases line.len(),
{
    if line.len() == 0 {
        seq![Seq::empty()]
    } else {
        let parts = parts_of(line.drop_last());
        if line.last() == PART_DELIM {
            parts.push(Seq::empty())
        } else {
            parts.update(parts.len() - 1, parts.last().push(line.last()))
        }
    }
}

/// The parts of a signature with an `&` between each two.
pub open spec fn parts_joined(parts: Seq<Seq<char>>) -> Seq<char>
    decreases parts.len(),
{
    if parts.len() == 0 {
        Seq::empty()
    } else if parts.len() == 1 {
        parts[0]
    } else {
        parts_joined(parts.drop_last()).push(PART_DELIM) + parts.last()
    }
}

proof fn lemma_parts_joined_update(parts: Seq<Seq<char>>, part: Seq<char>)
    requires
        parts.len() > 0,
    ensures
        parts_joined(parts.update(parts.len() - 1, parts.last() + part)) == parts_joined(parts)
            + part,
{
    let longer = parts.update(parts.len() - 1, parts.last() + part);
    assert(longer.drop_last() =~= parts.drop_last());
    assert(parts_joined(longer) =~= parts_joined(parts) + part);
}

/// No part holds an `&`, and put together again with `&` between them the parts
/// are the line.
pub proof fn law_parts_join(line: Seq<char>)
    ensures
        parts_of(line).len() > 0,
        parts_joined(parts_of(line)) == line,
        forall|i: int, j: int|
            0 <= i < parts_of(line).len() && 0 <= j < parts_of(line)[i].len()
                ==> #[trigger] parts_of(line)[i][j] != PART_DELIM,
    decreases line.len(),
{
    if line.len() > 0 {
        law_parts_join(line.drop_last());
        let parts = parts_of(line.drop_last());
        let last = line.last();
        if last == PART_DELIM {
            assert(parts.push(Seq::empty()).drop_last() =~= parts);
            assert(parts_joined(parts.push(Seq::<char>::empty())) =~= line);
        } else {
            assert(parts.last().push(last) =~= parts.last() + seq![last]);
            lemma_parts_joined_update(parts, seq![last]);
            assert(line.drop_last() + seq![last] =~= line);
        }
    } else {
        assert(parts_joined(parts_of(line)) =~= line);
    }
}

/// The characters of a text, one by one.
fn chars_of(text: &str) -> (r: Vec<char>)
    ensures
        r@ == text@,
{
    let mut chars: Vec<char> = Vec::new();
    for c in iter: text.chars()
        invariant
            chars@ == iter.seq().take(iter.index() as int),
            iter.seq() == text@,
    {
        chars.push(c);
        assert(chars@ =~= iter.seq().take(iter.index() + 1));
    }
    assert(chars@ =~= text@);
    chars
}

/// The first parts of a signature, `most` of them at most, and how many `&`
/// there are in all.
pub fn split_parts(line: &str, most: usize) -> (r: (Vec<String>, usize))
    ensures
        r.1 + 1 == parts_of(line@).len(),
        r.1 <= line@.len(),
        r.0.deep_view() == if most <= r.1 {
            parts_of(line@).take(most as int)
        } else {
            parts_of(line@)
        },
{
    let chars = chars_of(line);
    let len = chars.len();
    let mut found: Vec<String> = Vec::new();
    let mut closed: usize = 0;
    let mut start: usize = 0;
    let mut i: usize = 0;
    let ghost mut before: Seq<Seq<char>> = Seq::empty();
    proof {
        assert(line@.take(0) =~= Seq::empty());
        assert(line@.subrange(0, 0) =~= Seq::empty());
        assert(parts_of(line@.take(0)) =~= before.push(line@.subrange(0, 0)));
        assert(found.deep_view() =~= before);
    }
    while i < len
        invariant
            i <= len,
            start <= i,
            len == line@.len(),
            chars@ == line@,
            closed == before.len(),
            closed <= i,
            parts_of(line@.take(i as int)) == before.push(
                line@.subrange(start as int, i as int),
            ),
            found.deep_view() == if most < closed {
                before.take(most as int)
            } else {
                before
            },
        decreases len - i,
    {
        let ghost upto = line@.take(i + 1);
        let ghost part = line@.subrange(start as int, i as int);
        proof {
            assert(upto.drop_last() =~= line@.take(i as int));
            assert(before.push(part).last() == part);
            assert(before.push(part).update(before.len() as int, part.push(line@[i as int]))
                =~= before.push(part.push(line@[i as int])));
            assert(part.push(line@[i as int]) =~= line@.subrange(start as int, i + 1));
        }
        if chars[i] == PART_DELIM {
            let ghost held = found.deep_view();
            if closed < most {
                found.push(line.substring_char(start, i).to_owned());
                assert(found.deep_view() =~= held.push(part));
            }
            proof {
                assert(line@.subrange(i + 1, i + 1) =~= Seq::empty());
                before = before.push(part);
                if most < before.len() {
                    assert(found.deep_view() =~= before.take(most as int));
                }
            }
            closed = closed + 1;
            start = i + 1;
        }
        i = i + 1;
    }
    assert(line@.take(len as int) =~= line@);
    let ghost held = found.deep_view();
    let ghost part = line@.subrange(start as int, len as int);
    if closed < most {
        found.push(line.substring_char(start, len).to_owned());
        assert(found.deep_view() =~= held.push(part));
    }
    proof {
        let all = before.push(part);
        if most < all.len() {
            assert(found.deep_view() =~= all.take(most as int));
        }
    }
    (found, closed)
}

/// The first place from `at` on where `text` holds `pattern`.
pub open spec fn first_at(text: Seq<char>, pattern: Seq<char>, at: int) -> Option<int>
    decreases text.len() + 1 - at,
{
    if at + pattern.len() > text.len() {
        None
    } else if text.subrange(at, at + pattern.len()) == pattern {
        Some(at)
    } else {
        first_at(text, pattern, at + 1)
    }
}

/// What the signature of every patch starts with.
pub const HDIFF_HEAD: &'static str = "HDIFF";

/// Whether a character is one of the ten digits.
pub open spec fn is_digit(c: char) -> bool {
    '0' <= c <= '9'
}

/// Whether a text is made of digits alone.
pub open spec fn all_digits(text: Seq<char>) -> bool {
    forall|i: int| 0 <= i < text.len() ==> is_digit(#[trigger] text[i])
}

/// What is left of a text behind all that stands before its first digit.
pub open spec fn from_first_digit(text: Seq<char>) -> Seq<char>
    decreases text.len(),
{
    if text.len() == 0 || is_digit(text[0]) {
        text
    } else {
        from_first_digit(text.skip(1))
    }
}

/// The number that some digits write.
pub open spec fn decimal_of(digits: Seq<char>) -> int
    decreases digits.len(),
{
    if digits.len() == 0 {
        0
    } else {
        decimal_of(digits.drop_last()) * 10 + (digits.last() as u32 - '0' as u32)
    }
}

/// The version number in a signature: the digits behind `HDIFF`, and behind
/// what stands between.
pub open spec fn version_of(text: Seq<char>) -> Result<i64, PatchError> {
    match first_at(text, HDIFF_HEAD@, 0) {
        None => Err(PatchError::VersionMissing),
        Some(at) => {
            let digits = from_first_digit(text.skip(at + HDIFF_HEAD@.len()));
            if digits.len() == 0 || !all_digits(digits) || decimal_of(digits)
                > i64::MAX {
                Err(PatchError::InvalidVersion)
            } else {
                Ok(decimal_of(digits) as i64)
            }
        },
    }
}

proof fn lemma_decimal_grows(digits: Seq<char>, n: int)
    requires
        0 <= n <= digits.len(),
        all_digits(digits),
    ensures
        0 <= decimal_of(digits.take(n)) <= decimal_of(digits),
    decreases digits.len(),
{
    if n == digits.len() {
        assert(digits.take(n) =~= digits);
        if n > 0 {
            assert(all_digits(digits.drop_last()));
            lemma_decimal_grows(digits.drop_last(), n - 1);
        }
    } else {
        assert(all_digits(digits.drop_last()));
        lemma_decimal_grows(digits.drop_last(), n);
        assert(digits.drop_last().take(n) =~= digits.take(n));
    }
}

/// The number that digits from `from` on write, where it fits.
fn parse_digits(chars: &Vec<char>, from: usize) -> (r: Option<i64>)
    requires
        from <= chars@.len(),
    ensures
        ({
            let digits = chars@.skip(from as int);
            r == if digits.len() == 0 || !all_digits(digits) || decimal_of(digits)
                > i64::MAX {
                None::<i64>
            } else {
                Some(decimal_of(digits) as i64)
            }
        }),
{
    let ghost digits = chars@.skip(from as int);
    let len = chars.len();
    if from == len {
        return None;
    }
    let mut value: i64 = 0;
    let mut i: usize = from;
    assert(digits.take(0) =~= Seq::empty());
    while i < len
        invariant
            from <= i <= len,
            len == chars@.len(),
            digits == chars@.skip(from as int),
            value == decimal_of(digits.take(i - from)),
            0 <= value,
            forall|j: int| from <= j < i ==> is_digit(#[trigger] chars@[j]),
        decreases len - i,
    {
        let c = chars[i];
        assert(c == digits[i - from]);
        if !('0' <= c && c <= '9') {
            assert(!is_digit(digits[i - from]));
            return None;
        }
        let ghost upto = digits.take(i - from + 1);
        let next: i128 = value as i128 * 10 + (c as u32 - '0' as u32) as i128;
        assert(upto.drop_last() =~= digits.take(i - from));
        assert(next == decimal_of(upto));
        if next > i64::MAX as i128 {
            proof {
                if all_digits(digits) {
                    lemma_decimal_grows(digits, i - from + 1);
                }
            }
            return None;
        }
        value = next as i64;
        i = i + 1;
    }
    proof {
        assert(digits.take(i - from) =~= digits);
        assert(all_digits(digits)) by {
            assert forall|j: int| 0 <= j < digits.len() implies is_digit(#[trigger] digits[j]) by {
                assert(is_digit(chars@[from + j]));
            }
        }
    }
    Some(value)
}

/// Where a text first holds `pattern`.
fn find_text(text: &str, pattern: &str) -> (r: Option<usize>)
    ensures
        match r {
            Some(at) => first_at(text@, pattern@, 0) == Some(at as int) && at + pattern@.len()
                <= text@.len(),
            None => first_at(text@, pattern@, 0) is None,
        },
{
    let len = text.unicode_len();
    let pattern_len = pattern.unicode_len();
    if pattern_len > len {
        return None;
    }
    let last: usize = len - pattern_len;
    let mut at: usize = 0;
    loop
        invariant
            at <= last,
            len == text@.len(),
            pattern_len == pattern@.len(),
            last == len - pattern_len,
            first_at(text@, pattern@, 0) == first_at(text@, pattern@, at as int),
        decreases last - at,
    {
        if same_text(text.substring_char(at, at + pattern_len), pattern) {
            return Some(at);
        }
        if at == last {
            return None;
        }
        at = at + 1;
    }
}

/// The version number in a signature.
pub fn try_get_version(str_val: &str) -> (r: Result<i64, PatchError>)
    ensures
        r == version_of(str_val@),
{
    let at: usize = match find_text(str_val, HDIFF_HEAD) {
        Some(at) => at,
        None => return Err(PatchError::VersionMissing),
    };
    let chars = chars_of(str_val);
    let len = chars.len();
    let mut from: usize = at + HDIFF_HEAD.unicode_len();
    let ghost rest = str_val@.skip(from as int);
    while from < len && !('0' <= chars[from] && chars[from] <= '9')
        invariant
            from <= len,
            len == str_val@.len(),
            chars@ == str_val@,
            from_first_digit(rest) == from_first_digit(str_val@.skip(from as int)),
        decreases len - from,
    {
        assert(str_val@.skip(from as int).skip(1) =~= str_val@.skip(from + 1));
        from = from + 1;
    }
    match parse_digits(&chars, from) {
        Some(version) => Ok(version),
        None => Err(PatchError::InvalidVersion),
    }
}

} // verus!
