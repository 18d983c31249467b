//! The differences of a single-compressed patch: runs of zeros and runs of bytes
//! in turn, each with its length before it.
use crate::error::PatchError;
use crate::rle::{add_bytes, added_at, lemma_added_twice, min};
use vstd::prelude::*;
use vstd::slice::slice_subrange;

verus! {

/// The number of values that the upper bits of a length leave to the digits
/// behind them.
pub const DIGITS_SPAN: u64 = 0x200_0000_0000_0000;

/// The length that the digits in `buf` write behind those that wrote `acc`: seven
/// bits each, all but the last with the top bit set. Bits that leave the range
/// of a `u64` are lost. Beside it, what is left of `buf`.
pub open spec fn rle_digits(acc: u64, buf: Seq<u8>) -> Option<(u64, Seq<u8>)>
    decreases buf.len(),
{
    if buf.len() == 0 {
        None
    } else {
        let value = (acc % DIGITS_SPAN * 128 + buf[0] % 128) as u64;
        if buf[0] < 128 {
            Some((value, buf.skip(1)))
        } else {
            rle_digits(value, buf.skip(1))
        }
    }
}

/// A length takes at least one byte.
pub proof fn lemma_rle_digits_shrink(acc: u64, buf: Seq<u8>)
    ensures
        rle_digits(acc, buf) matches Some((_, left)) ==> left.len() < buf.len(),
    decreases buf.len(),
{
    if buf.len() > 0 && buf[0] >= 128 {
        lemma_rle_digits_shrink(
            (acc % DIGITS_SPAN * 128 + buf[0] % 128) as u64,
            buf.skip(1),
        );
    }
}

/// Reads a length from `pos` on, and moves behind it.
pub fn rle_varint(buf: &[u8], pos: &mut usize) -> (r: Option<u64>)
    requires
        *old(pos) <= buf@.len(),
    ensures
        *final(pos) <= buf@.len(),
        match r {
            Some(v) => rle_digits(0, buf@.skip(*old(pos) as int)) == Some(
                (v, buf@.skip(*final(pos) as int)),
            ),
            None => rle_digits(0, buf@.skip(*old(pos) as int)) is None,
        },
{
    let mut value: u64 = 0;
    let ghost start = buf@.skip(*pos as int);
    while *pos < buf.len()
        invariant
            *pos <= buf@.len(),
            rle_digits(0, start) == rle_digits(value, buf@.skip(*pos as int)),
            start == buf@.skip(*old(pos) as int),
        decreases buf@.len() - *pos,
    {
        let b = buf[*pos];
        let ghost rest = buf@.skip(*pos as int);
        assert(rest[0] == b);
        assert(rest.skip(1) =~= buf@.skip(*pos + 1));
        *pos = *pos + 1;
        value = value % DIGITS_SPAN * 128 + (b % 128) as u64;
        if b < 128 {
            return Some(value);
        }
    }
    None
}

/// Where the differences stand: how many zeros are left of a run, how many bytes
/// of the run behind it, which of the two comes next, and what is left of the
/// buffer.
pub struct Rle0Model {
    pub len0: int,
    pub lenv: int,
    pub need_decode0: bool,
    pub rest: Seq<u8>,
}

impl Rle0Model {
    /// The differences at their start.
    pub open spec fn fresh(buf: Seq<u8>) -> Self {
        Rle0Model { len0: 0, lenv: 0, need_decode0: true, rest: buf }
    }

    /// Whether the runs have lengths.
    pub open spec fn valid(self) -> bool {
        &&& 0 <= self.len0
        &&& 0 <= self.lenv
    }
}

/// The differences with the next run open.
pub open spec fn opened(st: Rle0Model) -> Option<Rle0Model> {
    match rle_digits(0, st.rest) {
        None => None,
        Some((n, rest)) => if st.need_decode0 {
            Some(Rle0Model { len0: n as int, need_decode0: false, rest, ..st })
        } else {
            Some(Rle0Model { lenv: n as int, need_decode0: true, rest, ..st })
        },
    }
}

/// The next `n` difference bytes, and where the differences stand behind them.
pub open spec fn zero_differences(st: Rle0Model, n: int) -> Option<(Seq<u8>, Rle0Model)>
    decreases st.rest.len(), n, st.len0,
{
    if n <= 0 {
        Some((Seq::empty(), st))
    } else if st.len0 > 0 {
        let k = min(st.len0, n);
        match zero_differences(Rle0Model { len0: st.len0 - k, ..st }, n - k) {
            None => None,
            Some((more, st1)) => Some((Seq::new(k as nat, |i: int| 0u8) + more, st1)),
        }
    } else if st.lenv > 0 {
        let k = min(st.lenv, n);
        if k > st.rest.len() {
            None
        } else {
            match zero_differences(
                Rle0Model { lenv: st.lenv - k, rest: st.rest.skip(k), ..st },
                n - k,
            ) {
                None => None,
                Some((more, st1)) => Some((st.rest.take(k) + more, st1)),
            }
        }
    } else {
        match opened(st) {
            None => None,
            Some(st1) => {
                proof {
                    lemma_rle_digits_shrink(0, st.rest);
                }
                zero_differences(st1, n)
            },
        }
    }
}

/// As many difference bytes are given as are asked for.
pub proof fn lemma_zero_differences_len(st: Rle0Model, n: int)
    requires
        st.valid(),
        n >= 0,
    ensures
        zero_differences(st, n) matches Some((bytes, st1)) ==> bytes.len() == n && st1.valid(),
    decreases st.rest.len(), n, st.len0,
{
    if n <= 0 {
    } else if st.len0 > 0 {
        let k = min(st.len0, n);
        lemma_zero_differences_len(Rle0Model { len0: st.len0 - k, ..st }, n - k);
    } else if st.lenv > 0 {
        let k = min(st.lenv, n);
        if k <= st.rest.len() {
            lemma_zero_differences_len(
                Rle0Model { lenv: st.lenv - k, rest: st.rest.skip(k), ..st },
                n - k,
            );
        }
    } else if let Some(st1) = opened(st) {
        lemma_rle_digits_shrink(0, st.rest);
        lemma_zero_differences_len(st1, n);
    }
}

/// Difference bytes taken in two goes.
pub open spec fn zero_differences_in_two(st: Rle0Model, n: int, m: int) -> Option<
    (Seq<u8>, Rle0Model),
> {
    match zero_differences(st, n) {
        None => None,
        Some((first, st1)) => match zero_differences(st1, m) {
            None => None,
            Some((second, st2)) => Some((first + second, st2)),
        },
    }
}

/// It makes no difference in how many goes the difference bytes are taken.
pub proof fn law_zero_differences_split(st: Rle0Model, n: int, m: int)
    requires
        st.valid(),
        n >= 0,
        m >= 0,
    ensures
        zero_differences(st, n + m) == zero_differences_in_two(st, n, m),
    decreases st.rest.len(), n, st.len0,
{
    if n == 0 {
        if let Some((second, st2)) = zero_differences(st, m) {
            assert(Seq::<u8>::empty() + second =~= second);
        }
    } else if st.len0 > 0 {
        let k = min(st.len0, n);
        let zeros = Seq::new(k as nat, |i: int| 0u8);
        let st1 = Rle0Model { len0: st.len0 - k, ..st };
        law_zero_differences_split(st1, n - k, m);
        if k < n {
            if let Some((first, mid)) = zero_differences(st1, n - k) {
                if let Some((second, st2)) = zero_differences(mid, m) {
                    assert(zeros + (first + second) =~= (zeros + first) + second);
                }
            }
        } else {
            lemma_zeros_continue(st, n, m);
        }
    } else if st.lenv > 0 {
        let k = min(st.lenv, n);
        if k <= st.rest.len() {
            let bytes = st.rest.take(k);
            let st1 = Rle0Model { lenv: st.lenv - k, rest: st.rest.skip(k), ..st };
            law_zero_differences_split(st1, n - k, m);
            if k < n {
                if let Some((first, mid)) = zero_differences(st1, n - k) {
                    if let Some((second, st2)) = zero_differences(mid, m) {
                        assert(bytes + (first + second) =~= (bytes + first) + second);
                    }
                }
            } else {
                lemma_bytes_continue(st, n, m);
            }
        } else {
            lemma_bytes_continue(st, n, m);
        }
    } else {
        if let Some(st1) = opened(st) {
            lemma_rle_digits_shrink(0, st.rest);
            law_zero_differences_split(st1, n, m);
        }
    }
}

/// A run of zeros that the first go ends in goes on in the second.
proof fn lemma_zeros_continue(st: Rle0Model, n: int, m: int)
    requires
        st.valid(),
        0 < n <= st.len0,
        m >= 0,
    ensures
        zero_differences(st, n + m) == zero_differences_in_two(st, n, m),
{
    let zeros_n = Seq::new(n as nat, |i: int| 0u8);
    let mid = Rle0Model { len0: st.len0 - n, ..st };
    assert(zero_differences(mid, 0) == Some((Seq::<u8>::empty(), mid)));
    assert(zeros_n + Seq::<u8>::empty() =~= zeros_n);
    assert(zero_differences(st, n) == Some((zeros_n, mid)));
    let k = min(st.len0, n + m);
    let st1 = Rle0Model { len0: st.len0 - k, ..st };
    let zeros_k = Seq::new(k as nat, |i: int| 0u8);
    if m == 0 {
        assert(zero_differences(mid, 0) == Some((Seq::<u8>::empty(), mid)));
    } else if mid.len0 > 0 {
        let k2 = min(mid.len0, m);
        let zeros_k2 = Seq::new(k2 as nat, |i: int| 0u8);
        assert(k == n + k2);
        assert(Rle0Model { len0: mid.len0 - k2, ..mid } == st1);
        if let Some((more, _)) = zero_differences(st1, m - k2) {
            assert(zeros_n + (zeros_k2 + more) =~= zeros_k + more);
        }
    } else {
        assert(st1 == mid);
        assert(zeros_k =~= zeros_n);
    }
}

/// A run of bytes that the first go ends in goes on in the second.
proof fn lemma_bytes_continue(st: Rle0Model, n: int, m: int)
    requires
        st.valid(),
        st.len0 == 0,
        st.lenv > 0,
        n > 0,
        min(st.lenv, n) == n || min(st.lenv, n) > st.rest.len(),
        m >= 0,
    ensures
        zero_differences(st, n + m) == zero_differences_in_two(st, n, m),
{
    if min(st.lenv, n) <= st.rest.len() {
        let bytes_n = st.rest.take(n);
        let mid = Rle0Model { lenv: st.lenv - n, rest: st.rest.skip(n), ..st };
        assert(zero_differences(mid, 0) == Some((Seq::<u8>::empty(), mid)));
        assert(bytes_n + Seq::<u8>::empty() =~= bytes_n);
        assert(zero_differences(st, n) == Some((bytes_n, mid)));
        let k = min(st.lenv, n + m);
        if m == 0 {
            assert(zero_differences(mid, 0) == Some((Seq::<u8>::empty(), mid)));
        } else if mid.lenv > 0 {
            let k2 = min(mid.lenv, m);
            assert(k == n + k2);
            if k <= st.rest.len() {
                let st1 = Rle0Model { lenv: st.lenv - k, rest: st.rest.skip(k), ..st };
                assert(st.rest.skip(n).skip(k2) =~= st.rest.skip(k));
                assert(Rle0Model {
                    lenv: mid.lenv - k2,
                    rest: mid.rest.skip(k2),
                    ..mid
                } == st1);
                if let Some((more, _)) = zero_differences(st1, m - k2) {
                    assert(bytes_n + (mid.rest.take(k2) + more) =~= st.rest.take(k) + more);
                }
            }
        } else {
            assert(k == n);
        }
    }
}

/// Difference bytes behind others.
pub open spec fn after(bytes: Seq<u8>, more: Option<(Seq<u8>, Rle0Model)>) -> Option<
    (Seq<u8>, Rle0Model),
> {
    match more {
        None => None,
        Some((more, st)) => Some((bytes + more, st)),
    }
}

proof fn lemma_after_twice(first: Seq<u8>, second: Seq<u8>, more: Option<(Seq<u8>, Rle0Model)>)
    ensures
        after(first, after(second, more)) == after(first + second, more),
{
    if let Some((bytes, _)) = more {
        assert(first + (second + bytes) =~= first + second + bytes);
    }
}

/// The reader of the differences in a buffer.
pub struct Rle0Decoder<'a> {
    pub buf: &'a [u8],
    pub pos: usize,
    pub len0: u64,
    pub lenv: u64,
    pub need_decode0: bool,
}

impl<'a> Rle0Decoder<'a> {
    /// Where the differences stand.
    pub open spec fn model(&self) -> Rle0Model {
        Rle0Model {
            len0: self.len0 as int,
            lenv: self.lenv as int,
            need_decode0: self.need_decode0,
            rest: self.buf@.skip(self.pos as int),
        }
    }

    /// Whether the place in the buffer is one.
    pub open spec fn valid(&self) -> bool {
        self.pos <= self.buf@.len()
    }

    /// The differences in `buf`, from the first on.
    pub fn new(buf: &'a [u8]) -> (r: Self)
        ensures
            r.valid(),
            r.model() == Rle0Model::fresh(buf@),
    {
        assert(buf@.skip(0) =~= buf@);
        Rle0Decoder { buf, pos: 0, len0: 0, lenv: 0, need_decode0: true }
    }

    /// Adds the next differences to the bytes of `data` from `from` on. There
    /// is no answer where the buffer ends before.
    pub fn add(&mut self, data: &mut Vec<u8>, from: usize) -> (r: Result<(), PatchError>)
        requires
            old(self).valid(),
            from <= old(data)@.len(),
        ensures
            final(self).valid(),
            final(self).buf == old(self).buf,
            match r {
                Ok(_) => adds(*old(self), *final(self), old(data)@, from as int, final(data)@),
                Err(e) => e == PatchError::Malformed && zero_differences(
                    old(self).model(),
                    old(data)@.len() - from,
                ) is None,
            },
    {
        let ghost st0 = self.model();
        let ghost data0 = data@;
        let ghost mut done: Seq<u8> = Seq::empty();
        let len = data.len();
        let mut at: usize = from;
        proof {
            assert(added_at(data0, from as int, done) =~= data0);
            if let Some((more, _)) = zero_differences(st0, len - from) {
                assert(done + more =~= more);
            }
        }
        while at < len
            invariant
                self.valid(),
                self.buf == old(self).buf,
                from <= at <= len,
                len == data@.len(),
                len == data0.len(),
                len == old(data)@.len(),
                data0 == old(data)@,
                st0 == old(self).model(),
                done.len() == at - from,
                data@ == added_at(data0, from as int, done),
                zero_differences(st0, len - from) == after(
                    done,
                    zero_differences(self.model(), len - at),
                ),
            decreases len - at, self.buf@.len() - self.pos, self.len0,
        {
            let rem: u64 = (len - at) as u64;
            if self.len0 > 0 {
                let take: u64 = if self.len0 < rem {
                    self.len0
                } else {
                    rem
                };
                self.len0 = self.len0 - take;
                at = at + take as usize;
                proof {
                    let zeros = Seq::new(take as nat, |i: int| 0u8);
                    assert(added_at(data0, from as int, done + zeros) =~= added_at(
                        data0,
                        from as int,
                        done,
                    ));
                    lemma_after_twice(done, zeros, zero_differences(self.model(), len - at));
                    done = done + zeros;
                }
            } else if self.lenv > 0 {
                let take: u64 = if self.lenv < rem {
                    self.lenv
                } else {
                    rem
                };
                if take > (self.buf.len() - self.pos) as u64 {
                    return Err(PatchError::Malformed);
                }
                let take_len: usize = take as usize;
                let src = slice_subrange(self.buf, self.pos, self.pos + take_len);
                add_bytes(data, at, src);
                proof {
                    let rest = self.model().rest;
                    assert(src@ =~= rest.take(take as int));
                    assert(rest.skip(take as int) =~= self.buf@.skip(self.pos + take));
                    lemma_added_twice(data0, from as int, done, src@);
                }
                self.pos = self.pos + take_len;
                self.lenv = self.lenv - take;
                at = at + take_len;
                proof {
                    lemma_after_twice(done, src@, zero_differences(self.model(), len - at));
                    done = done + src@;
                }
            } else {
                proof {
                    lemma_rle_digits_shrink(0, self.model().rest);
                }
                match rle_varint(self.buf, &mut self.pos) {
                    None => return Err(PatchError::Malformed),
                    Some(n) => {
                        if self.need_decode0 {
                            self.need_decode0 = false;
                            self.len0 = n;
                        } else {
                            self.need_decode0 = true;
                            self.lenv = n;
                        }
                    },
                }
            }
        }
        assert(done + Seq::<u8>::empty() =~= done);
        Ok(())
    }
}

/// Whether adding the next differences to the bytes of `data` from `from` on makes
/// `made` of it, and leaves `after` of the reader `before`.
pub open spec fn adds(
    before: Rle0Decoder,
    after: Rle0Decoder,
    data: Seq<u8>,
    from: int,
    made: Seq<u8>,
) -> bool {
    &&& after.valid()
    &&& after.buf == before.buf
    &&& zero_differences(before.model(), data.len() - from) matches Some((bytes, st)) && {
        &&& after.model() == st
        &&& made == added_at(data, from, bytes)
    }
}

/// Cutting the data into two pieces changes neither what is made of it nor where the
/// reader ends: adding to `first` and then to `second` makes the two halves of what
/// adding to both at once makes, and leaves an equal reader.
pub proof fn law_add_in_pieces(
    start: Rle0Decoder,
    first: Seq<u8>,
    second: Seq<u8>,
    between: Rle0Decoder,
    first_made: Seq<u8>,
    end: Rle0Decoder,
    second_made: Seq<u8>,
    end_at_once: Rle0Decoder,
    made_at_once: Seq<u8>,
)
    requires
        start.valid(),
        adds(start, between, first, 0, first_made),
        adds(between, end, second, 0, second_made),
        adds(start, end_at_once, first + second, 0, made_at_once),
    ensures
        made_at_once == first_made + second_made,
        end == end_at_once,
{
    let (n, m) = (first.len() as int, second.len() as int);
    law_zero_differences_split(start.model(), n, m);
    lemma_zero_differences_len(start.model(), n);
    lemma_zero_differences_len(between.model(), m);
    let (diff1, _) = zero_differences(start.model(), n)->0;
    let (diff2, _) = zero_differences(between.model(), m)->0;
    assert(added_at(first + second, 0, diff1 + diff2) =~= added_at(first, 0, diff1) + added_at(
        second,
        0,
        diff2,
    ));
    // What is left of the same buffer is as long for both.
    assert(end.model().rest.len() == end_at_once.model().rest.len());
}

/// The data can be cut into pieces just where it can be taken at once.
pub proof fn law_add_in_pieces_possible(start: Rle0Decoder, n: int, m: int)
    requires
        start.valid(),
        n >= 0,
        m >= 0,
    ensures
        zero_differences(start.model(), n + m) is Some <==> (zero_differences(
            start.model(),
            n,
        ) matches Some((_, st)) && zero_differences(st, m) is Some),
{
    law_zero_differences_split(start.model(), n, m);
}

} // verus!
