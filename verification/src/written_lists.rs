//! How lists of numbers, of indices, of pairs and of texts are written, and the laws
//! that reading a list undoes writing it.
use crate::error::PatchError;
use crate::kr_format::{null_strings_of, unsigned_of, PATH_LIMIT};
use crate::parser::{
    closed_texts, delimited_of, indices_of, lemma_length_until, length_until, longs_of, pair_of,
    pairs_of, path_list, paths_of, string_to_null_of,
};
use crate::structs::PairIndexReference;
use crate::text::utf8_lossy;
use crate::written::{law_signed_number_read_back, number, signed, tagged_number, unsigned};
use vstd::prelude::*;

verus! {

/// Numbers as they are written one behind the other.
pub open spec fn numbers_written(list: Seq<i64>) -> Seq<u8>
    decreases list.len(),
{
    if list.len() == 0 {
        Seq::empty()
    } else {
        numbers_written(list.drop_last()) + number(unsigned(list.last() as int))
    }
}

/// Numbers without a sign as they are written one behind the other.
pub open spec fn sizes_written(list: Seq<u64>) -> Seq<u8>
    decreases list.len(),
{
    if list.len() == 0 {
        Seq::empty()
    } else {
        sizes_written(list.drop_last()) + number(list.last() as int)
    }
}

/// Reading undoes writing for lists of numbers.
pub proof fn law_numbers_read_back(list: Seq<i64>, rest: Seq<u8>)
    ensures
        longs_of(numbers_written(list) + rest, list.len() as int) == Ok::<
            (Seq<i64>, Seq<u8>),
            PatchError,
        >((list, rest)),
    decreases list.len(),
{
    if list.len() == 0 {
        assert(list =~= Seq::empty());
        assert(numbers_written(list) + rest =~= rest);
    } else {
        let last = number(unsigned(list.last() as int));
        law_numbers_read_back(list.drop_last(), last + rest);
        assert(numbers_written(list) + rest =~= numbers_written(list.drop_last()) + (last + rest));
        law_signed_number_read_back(0, list.last(), rest);
        assert(list.drop_last().push(list.last()) =~= list);
    }
}

/// Where more numbers are asked for than are written, the bytes run out.
pub proof fn law_numbers_missing(list: Seq<i64>, n: int)
    requires
        list.len() < n,
    ensures
        longs_of(numbers_written(list), n) == Err::<(Seq<i64>, Seq<u8>), PatchError>(
            PatchError::UnexpectedEof,
        ),
    decreases n,
{
    if n == list.len() + 1 {
        law_numbers_read_back(list, Seq::empty());
        assert(numbers_written(list) + Seq::<u8>::empty() =~= numbers_written(list));
    } else {
        law_numbers_missing(list, n - 1);
    }
}

/// Numbers without a sign are written as the signed ones that have their bits.
proof fn lemma_sizes_written(list: Seq<u64>, longs: Seq<i64>)
    requires
        longs.len() == list.len(),
        forall|i: int| 0 <= i < list.len() ==> #[trigger] longs[i] == signed(list[i] as int),
    ensures
        sizes_written(list) == numbers_written(longs),
    decreases list.len(),
{
    if list.len() > 0 {
        lemma_sizes_written(list.drop_last(), longs.drop_last());
        assert(longs[list.len() - 1] == signed(list[list.len() - 1] as int));
        assert(unsigned(longs.last() as int) == list.last());
    }
}

/// Reading undoes writing for lists of numbers without a sign.
pub proof fn law_sizes_read_back(list: Seq<u64>, rest: Seq<u8>)
    ensures
        longs_of(sizes_written(list) + rest, list.len() as int) matches Ok((longs, left))
            && unsigned_of(longs) == list && left == rest,
{
    let longs = Seq::new(list.len(), |i: int| signed(list[i] as int) as i64);
    lemma_sizes_written(list, longs);
    law_numbers_read_back(longs, rest);
    assert(unsigned_of(longs) =~= list);
}

/// Indices as they are written: each by how far it lies from the one after the index
/// before, and the first from zero.
pub open spec fn indices_written(list: Seq<i64>) -> Seq<u8>
    decreases list.len(),
{
    if list.len() == 0 {
        Seq::empty()
    } else {
        indices_written(list.drop_last()) + number(unsigned(list.last() - next_index(list)))
    }
}

/// The index after the one before the last.
pub open spec fn next_index(list: Seq<i64>) -> int {
    if list.len() <= 1 {
        0
    } else {
        list[list.len() - 2] + 1
    }
}

/// Whether all indices are ones, and none is above `max` where that is given.
pub open spec fn are_indices(list: Seq<i64>, max: Option<i64>) -> bool {
    forall|i: int|
        0 <= i < list.len() ==> {
            &&& 0 <= #[trigger] list[i]
            &&& max is Some ==> list[i] <= max->0
        }
}

/// Reading undoes writing for lists of indices, in whatever order they stand.
pub proof fn law_indices_read_back(list: Seq<i64>, max: Option<i64>, rest: Seq<u8>)
    requires
        are_indices(list, max),
    ensures
        indices_of(indices_written(list) + rest, list.len() as int, max) == Ok::<
            (Seq<i64>, Seq<u8>),
            PatchError,
        >((list, rest)),
    decreases list.len(),
{
    if list.len() == 0 {
        assert(list =~= Seq::empty());
        assert(indices_written(list) + rest =~= rest);
    } else {
        let before = list.drop_last();
        assert(are_indices(before, max)) by {
            assert forall|i: int| 0 <= i < before.len() implies before[i] == list[i] by {}
        }
        let n = list.len() - 1;
        assert(list[n] == list.last());
        if n > 0 {
            assert(before.last() == list[n - 1]);
        }
        let distance = list.last() - next_index(list);
        let last = number(unsigned(distance));
        law_indices_read_back(before, max, last + rest);
        assert(indices_written(list) + rest =~= indices_written(before) + (last + rest));
        law_signed_number_read_back(0, distance as i64, rest);
        assert(before.push(list.last()) =~= list);
    }
}

/// The first index above the greatest that is allowed is refused, and named by its
/// place in the list, whatever comes behind it.
pub proof fn law_index_refused(list: Seq<i64>, index: i64, max: i64, n: int, rest: Seq<u8>)
    requires
        are_indices(list, Some(max)),
        0 <= index,
        max < index,
        list.len() < n,
        list.len() <= u64::MAX,
    ensures
        indices_of(indices_written(list.push(index)) + rest, n, Some(max)) == Err::<
            (Seq<i64>, Seq<u8>),
            PatchError,
        >(PatchError::InvalidIndex { at: list.len() as u64, max }),
    decreases n,
{
    if n == list.len() + 1 {
        let all = list.push(index);
        assert(all.drop_last() =~= list);
        if list.len() > 0 {
            assert(0 <= list[list.len() - 1]);
            assert(all[all.len() - 2] == list.last());
        }
        let distance = index - next_index(all);
        let last = number(unsigned(distance));
        law_indices_read_back(list, Some(max), last + rest);
        assert(indices_written(all) + rest =~= indices_written(list) + (last + rest));
        law_signed_number_read_back(0, distance as i64, rest);
    } else {
        law_index_refused(list, index, max, n - 1, rest);
    }
}

/// A pair of indices as it is written behind the indices `back_new` and `back_old`:
/// the new one by how far it lies from the one after `back_new`, and the old one by
/// how far it lies from the one after `back_old`, with a tag for whether it lies
/// before that.
pub open spec fn pair_written(back_new: int, back_old: int, pair: PairIndexReference) -> Seq<u8> {
    number(unsigned(pair.new_index - (back_new + 1))) + if pair.old_index < back_old + 1 {
        tagged_number(1, 1, unsigned(back_old + 1 - pair.old_index))
    } else {
        tagged_number(1, 0, unsigned(pair.old_index - (back_old + 1)))
    }
}

/// Pairs as they are written one behind the other.
pub open spec fn pairs_written(pairs: Seq<PairIndexReference>) -> Seq<u8>
    decreases pairs.len(),
{
    if pairs.len() == 0 {
        Seq::empty()
    } else if pairs.len() == 1 {
        pair_written(-1, -1, pairs[0])
    } else {
        let back = pairs[pairs.len() - 2];
        pairs_written(pairs.drop_last()) + pair_written(
            back.new_index as int,
            back.old_index as int,
            pairs.last(),
        )
    }
}

/// Whether all indices in pairs are ones, and none is above the greatest of its kind.
/// The distance back from the greatest old index of all cannot be written.
pub open spec fn are_pairs(pairs: Seq<PairIndexReference>, max_new: i64, max_old: i64) -> bool {
    forall|i: int|
        0 <= i < pairs.len() ==> {
            &&& 0 <= (#[trigger] pairs[i]).new_index <= max_new
            &&& 0 <= pairs[i].old_index <= max_old
            &&& pairs[i].old_index < i64::MAX
        }
}

/// Reading undoes writing for one pair. A pair with an index above the greatest is
/// refused, the new one first.
#[verifier::rlimit(40)]
pub proof fn law_pair_read_back(
    at: int,
    back_new: i64,
    back_old: i64,
    pair: PairIndexReference,
    max_new: i64,
    max_old: i64,
    rest: Seq<u8>,
)
    requires
        -1 <= back_new,
        -1 <= back_old < i64::MAX,
        0 <= pair.new_index,
        0 <= pair.old_index,
    ensures
        pair_of(
            pair_written(back_new as int, back_old as int, pair) + rest,
            at,
            back_new as int,
            back_old as int,
            max_new,
            max_old,
        ) == if pair.new_index > max_new {
            Err::<(PairIndexReference, Seq<u8>), PatchError>(
                PatchError::InvalidNewIndex { at: at as u64, value: pair.new_index },
            )
        } else if pair.old_index > max_old {
            Err(PatchError::InvalidOldIndex { at: at as u64, value: pair.old_index })
        } else {
            Ok((pair, rest))
        },
{
    let inc_new = pair.new_index - (back_new + 1);
    if pair.old_index < back_old + 1 {
        let inc_old = back_old + 1 - pair.old_index;
        let behind = tagged_number(1, 1, unsigned(inc_old)) + rest;
        assert(pair_written(back_new as int, back_old as int, pair) + rest =~= number(
            unsigned(inc_new),
        ) + behind);
        law_signed_number_read_back(1, inc_new as i64, behind);
        law_signed_number_read_back(1, inc_old as i64, rest);
    } else {
        let inc_old = pair.old_index - (back_old + 1);
        let behind = tagged_number(1, 0, unsigned(inc_old)) + rest;
        assert(pair_written(back_new as int, back_old as int, pair) + rest =~= number(
            unsigned(inc_new),
        ) + behind);
        law_signed_number_read_back(0, inc_new as i64, behind);
        law_signed_number_read_back(0, inc_old as i64, rest);
    }
}

/// The pairs with one more behind them, as they are written.
proof fn lemma_pairs_pushed(pairs: Seq<PairIndexReference>, pair: PairIndexReference)
    ensures
        pairs_written(pairs.push(pair)) == pairs_written(pairs) + pair_written(
            last_new(pairs) as int,
            last_old(pairs) as int,
            pair,
        ),
{
    let all = pairs.push(pair);
    assert(all.drop_last() =~= pairs);
    if pairs.len() == 0 {
        assert(pairs_written(pairs) + pair_written(-1, -1, pair) =~= pairs_written(all));
    } else {
        assert(all[all.len() - 2] == pairs.last());
    }
}

/// The new index of the last pair, or the one before zero where there is none.
pub open spec fn last_new(pairs: Seq<PairIndexReference>) -> i64 {
    if pairs.len() == 0 {
        (-1) as i64
    } else {
        pairs[pairs.len() - 1].new_index
    }
}

/// The old index of the last pair, or the one before zero where there is none.
pub open spec fn last_old(pairs: Seq<PairIndexReference>) -> i64 {
    if pairs.len() == 0 {
        (-1) as i64
    } else {
        pairs[pairs.len() - 1].old_index
    }
}

/// Reading undoes writing for lists of pairs, in whatever order their indices stand.
pub proof fn law_pairs_read_back(
    pairs: Seq<PairIndexReference>,
    max_new: i64,
    max_old: i64,
    rest: Seq<u8>,
)
    requires
        are_pairs(pairs, max_new, max_old),
    ensures
        pairs_of(pairs_written(pairs) + rest, pairs.len() as int, max_new, max_old) == Ok::<
            (Seq<PairIndexReference>, Seq<u8>),
            PatchError,
        >((pairs, rest)),
    decreases pairs.len(),
{
    if pairs.len() == 0 {
        assert(pairs =~= Seq::empty());
        assert(pairs_written(pairs) + rest =~= rest);
    } else {
        let before = pairs.drop_last();
        let pair = pairs.last();
        assert(before.push(pair) =~= pairs);
        assert(are_pairs(before, max_new, max_old)) by {
            assert forall|i: int| 0 <= i < before.len() implies before[i] == pairs[i] by {}
        }
        assert(pairs[pairs.len() - 1] == pair);
        let (back_new, back_old) = (last_new(before), last_old(before));
        if before.len() > 0 {
            assert(before[before.len() - 1] == pairs[before.len() - 1]);
        }
        lemma_pairs_pushed(before, pair);
        let more = pair_written(back_new as int, back_old as int, pair) + rest;
        law_pairs_read_back(before, max_new, max_old, more);
        assert(pairs_written(pairs) + rest =~= pairs_written(before) + more);
        law_pair_read_back(pairs.len() - 1, back_new, back_old, pair, max_new, max_old, rest);
    }
}

/// The first pair with an index above the greatest of its kind is refused, and named by
/// its place in the list.
pub proof fn law_pair_refused(
    pairs: Seq<PairIndexReference>,
    pair: PairIndexReference,
    n: int,
    max_new: i64,
    max_old: i64,
    rest: Seq<u8>,
)
    requires
        are_pairs(pairs, max_new, max_old),
        0 <= pair.new_index,
        0 <= pair.old_index,
        pair.new_index > max_new || pair.old_index > max_old,
        pairs.len() < n,
        pairs.len() <= u64::MAX,
    ensures
        pairs_of(pairs_written(pairs.push(pair)) + rest, n, max_new, max_old) == Err::<
            (Seq<PairIndexReference>, Seq<u8>),
            PatchError,
        >(
            if pair.new_index > max_new {
                PatchError::InvalidNewIndex { at: pairs.len() as u64, value: pair.new_index }
            } else {
                PatchError::InvalidOldIndex { at: pairs.len() as u64, value: pair.old_index }
            },
        ),
    decreases n,
{
    if n == pairs.len() + 1 {
        lemma_pairs_pushed(pairs, pair);
        let (back_new, back_old) = (last_new(pairs), last_old(pairs));
        if pairs.len() > 0 {
            assert(pairs[pairs.len() - 1].new_index == back_new);
            assert(0 <= back_new && 0 <= back_old < i64::MAX);
        }
        let more = pair_written(back_new as int, back_old as int, pair) + rest;
        law_pairs_read_back(pairs, max_new, max_old, more);
        assert(pairs_written(pairs.push(pair)) + rest =~= pairs_written(pairs) + more);
        law_pair_read_back(pairs.len() as int, back_new, back_old, pair, max_new, max_old, rest);
    } else {
        law_pair_refused(pairs, pair, n - 1, max_new, max_old, rest);
    }
}

/// Texts as they are written one behind the other, each closed by a zero byte.
pub open spec fn texts_written(texts: Seq<Seq<u8>>) -> Seq<u8>
    decreases texts.len(),
{
    if texts.len() == 0 {
        Seq::empty()
    } else {
        texts_written(texts.drop_last()) + texts.last().push(0)
    }
}

/// Whether no byte is zero.
pub open spec fn no_zero(bytes: Seq<u8>) -> bool {
    forall|i: int| 0 <= i < bytes.len() ==> #[trigger] bytes[i] != 0
}

/// Whether no text holds a zero byte.
pub open spec fn no_zeros(texts: Seq<Seq<u8>>) -> bool {
    forall|i: int| 0 <= i < texts.len() ==> no_zero(#[trigger] texts[i])
}

/// The characters of texts.
pub open spec fn characters(texts: Seq<Seq<u8>>) -> Seq<Seq<char>> {
    Seq::new(texts.len(), |i: int| utf8_lossy(texts[i]))
}

/// The length of a text that a zero closes.
proof fn lemma_closed(text: Seq<u8>, rest: Seq<u8>)
    requires
        no_zero(text),
    ensures
        length_until(text.push(0) + rest, 0) == text.len(),
        (text.push(0) + rest).take(text.len() as int) == text,
        (text.push(0) + rest).skip(text.len() as int + 1) == rest,
{
    let all = text.push(0) + rest;
    assert forall|j: int| 0 <= j < text.len() implies all[j] != 0 by {
        assert(all[j] == text[j]);
    }
    lemma_length_until(all, 0, text.len() as int);
    assert(all.take(text.len() as int) =~= text);
    assert(all.skip(text.len() as int + 1) =~= rest);
}

/// Reading undoes writing for a text that a zero byte closes, however long it is. A
/// text that nothing closes goes up to the end.
pub proof fn law_text_read_back(text: Seq<u8>, rest: Seq<u8>)
    requires
        no_zero(text),
    ensures
        string_to_null_of(text.push(0) + rest) == Ok::<(Seq<char>, Seq<u8>), PatchError>(
            (utf8_lossy(text), rest),
        ),
        string_to_null_of(text) == Ok::<(Seq<char>, Seq<u8>), PatchError>(
            (utf8_lossy(text), Seq::empty()),
        ),
{
    lemma_closed(text, rest);
    lemma_length_until(text, 0, text.len() as int);
    assert(text.take(text.len() as int) =~= text);
}

/// Reading undoes writing for a text that some byte closes. One of `limit` bytes or
/// more is cut there, and what is cut off comes next. One that nothing closes, and
/// that is shorter, is not read.
pub proof fn law_delimited_read_back(text: Seq<u8>, delim: u8, limit: int, rest: Seq<u8>)
    requires
        0 < limit,
        forall|i: int| 0 <= i < text.len() ==> #[trigger] text[i] != delim,
    ensures
        delimited_of(text.push(delim) + rest, delim, limit) == Ok::<
            (Seq<char>, Seq<u8>),
            PatchError,
        >(
            if text.len() < limit {
                (utf8_lossy(text), rest)
            } else {
                (utf8_lossy(text.take(limit)), text.skip(limit).push(delim) + rest)
            },
        ),
        text.len() < limit ==> delimited_of(text, delim, limit) == Err::<
            (Seq<char>, Seq<u8>),
            PatchError,
        >(PatchError::UnexpectedEof),
{
    let all = text.push(delim) + rest;
    assert forall|j: int| 0 <= j < text.len() implies all[j] != delim by {
        assert(all[j] == text[j]);
    }
    lemma_length_until(all, delim, text.len() as int);
    lemma_length_until(text, delim, text.len() as int);
    if text.len() < limit {
        assert(all.take(text.len() as int) =~= text);
        assert(all.skip(text.len() as int + 1) =~= rest);
    } else {
        assert(all.take(limit) =~= text.take(limit));
        assert(all.skip(limit) =~= text.skip(limit).push(delim) + rest);
    }
}

/// Reading undoes writing for texts of less than 255 bytes each.
pub proof fn law_null_strings_read_back(texts: Seq<Seq<u8>>, rest: Seq<u8>)
    requires
        no_zeros(texts),
        forall|i: int| 0 <= i < texts.len() ==> (#[trigger] texts[i]).len() < 255,
    ensures
        null_strings_of(texts_written(texts) + rest, texts.len() as int) == Ok::<
            (Seq<Seq<char>>, Seq<u8>),
            PatchError,
        >((characters(texts), rest)),
    decreases texts.len(),
{
    if texts.len() == 0 {
        assert(characters(texts) =~= Seq::empty());
        assert(texts_written(texts) + rest =~= rest);
    } else {
        let before = texts.drop_last();
        let last = texts[texts.len() - 1];
        assert(no_zeros(before)) by {
            assert forall|i: int| 0 <= i < before.len() implies before[i] == texts[i] by {}
        }
        assert forall|i: int| 0 <= i < before.len() implies (#[trigger] before[i]).len() < 255 by {
            assert(before[i] == texts[i]);
        }
        let more = last.push(0) + rest;
        law_null_strings_read_back(before, more);
        assert(texts_written(texts) + rest =~= texts_written(before) + more);
        assert(no_zero(last));
        law_delimited_read_back(last, 0, PATH_LIMIT as int, rest);
        assert(characters(before).push(utf8_lossy(last)) =~= characters(texts));
    }
}

/// The texts with the first of them taken off, as they are written.
proof fn lemma_first_text(texts: Seq<Seq<u8>>)
    requires
        texts.len() > 0,
    ensures
        texts_written(texts) == texts[0].push(0) + texts_written(texts.skip(1)),
    decreases texts.len(),
{
    let others = texts.skip(1);
    if texts.len() == 1 {
        assert(texts_written(texts.drop_last()) =~= Seq::<u8>::empty());
        assert(texts_written(others) =~= Seq::<u8>::empty());
        assert(texts_written(texts) =~= texts[0].push(0) + texts_written(others));
    } else {
        lemma_first_text(texts.drop_last());
        assert(texts.drop_last().skip(1) =~= others.drop_last());
        assert(others.last() == texts.last());
        assert(texts_written(texts) =~= texts[0].push(0) + texts_written(others));
    }
}

/// Texts that a zero closes each are told apart, and bytes behind the last zero are
/// none.
proof fn lemma_texts_told_apart(texts: Seq<Seq<u8>>, tail: Seq<u8>)
    requires
        no_zeros(texts),
        no_zero(tail),
    ensures
        closed_texts(texts_written(texts) + tail) == characters(texts),
    decreases texts.len(),
{
    let all = texts_written(texts) + tail;
    if texts.len() == 0 {
        assert(all =~= tail);
        lemma_length_until(tail, 0, tail.len() as int);
        assert(characters(texts) =~= Seq::empty());
    } else {
        let others = texts.skip(1);
        assert forall|i: int| 0 <= i < others.len() implies no_zero(#[trigger] others[i]) by {
            assert(others[i] == texts[i + 1]);
        }
        lemma_first_text(texts);
        let behind = texts_written(others) + tail;
        assert(all =~= texts[0].push(0) + behind);
        assert(no_zero(texts[0]));
        lemma_closed(texts[0], behind);
        lemma_texts_told_apart(others, tail);
        assert(seq![utf8_lossy(texts[0])] + characters(others) =~= characters(texts));
    }
}

/// Reading undoes writing for lists of paths. Where the list is longer than the count,
/// its front is read; where it is shorter, empty paths take the place of those that
/// are missing. A count of zero sets no bound.
pub proof fn law_paths_read_back(texts: Seq<Seq<u8>>, tail: Seq<u8>, count: int, rest: Seq<u8>)
    requires
        no_zeros(texts),
        no_zero(tail),
        0 <= count,
    ensures
        ({
            let buffer = texts_written(texts) + tail;
            let paths = path_list(buffer, count);
            &&& paths.len() == if count == 0 {
                texts.len() as int
            } else {
                count
            }
            &&& forall|i: int|
                0 <= i < paths.len() ==> #[trigger] paths[i] == if i < texts.len() {
                    utf8_lossy(texts[i])
                } else {
                    Seq::<char>::empty()
                }
            &&& paths_of(buffer + rest, buffer.len() as int, count) == Ok::<
                (Seq<Seq<char>>, Seq<u8>),
                PatchError,
            >((paths, rest))
        }),
{
    let buffer = texts_written(texts) + tail;
    lemma_texts_told_apart(texts, tail);
    assert((buffer + rest).take(buffer.len() as int) =~= buffer);
    assert((buffer + rest).skip(buffer.len() as int) =~= rest);
}

} // verus!
