//! The differences of a patch: runs of bytes that are added to the bytes which
//! the new data is made of. A control stream says how long each run is and of
//! what kind, and a code stream holds the bytes that it does not fix.
use crate::parser::{byte_of, lemma_long_7bit_tagged_shrinks, long_7bit_tagged_of};
use vstd::prelude::*;

verus! {

/// How many top bits of a control byte give the kind of the run.
pub const K_BYTE_RLE_TYPE: u8 = 2;

/// Where the differences stand: the run that is open, `set_len` bytes of one
/// value and then `copy_len` bytes of code, and what is left of both streams.
pub struct RleModel {
    pub set_len: int,
    pub set_val: u8,
    pub copy_len: int,
    pub ctrl: Seq<u8>,
    pub code: Seq<u8>,
}

impl RleModel {
    /// Whether the open run has a length.
    pub open spec fn valid(self) -> bool {
        &&& 0 <= self.set_len
        &&& 0 <= self.copy_len
    }
}

/// The lesser of two numbers.
pub open spec fn min(a: int, b: int) -> int {
    if a < b {
        a
    } else {
        b
    }
}

/// The bytes of the open run, `n` at the most.
pub open spec fn open_run(st: RleModel, n: int) -> Option<(Seq<u8>, RleModel)> {
    let a = min(st.set_len, n);
    let b = min(st.copy_len, n - a);
    if b > st.code.len() {
        None
    } else {
        Some(
            (
                Seq::new(a as nat, |i: int| st.set_val) + st.code.take(b),
                RleModel {
                    set_len: st.set_len - a,
                    copy_len: st.copy_len - b,
                    code: st.code.skip(b),
                    ..st
                },
            ),
        )
    }
}

/// The run that the control stream gives next: of zeros, of bytes 255, of a
/// byte out of the code stream, or of as many bytes of code.
pub open spec fn next_run(st: RleModel) -> Option<RleModel> {
    match byte_of(st.ctrl) {
        Ok((sign, left)) => match long_7bit_tagged_of(K_BYTE_RLE_TYPE, sign, left) {
            Ok((length, left)) => {
                let n = length + 1;
                if n < 0 || n > i64::MAX {
                    None
                } else if sign / 64 == 3 {
                    Some(RleModel { copy_len: n, ctrl: left, ..st })
                } else if sign / 64 == 2 {
                    match byte_of(st.code) {
                        Ok((value, code)) => Some(
                            RleModel { set_len: n, set_val: value, ctrl: left, code, ..st },
                        ),
                        Err(_) => None,
                    }
                } else {
                    let value = if sign / 64 == 1 {
                        255u8
                    } else {
                        0u8
                    };
                    Some(RleModel { set_len: n, set_val: value, ctrl: left, ..st })
                }
            },
            Err(_) => None,
        },
        Err(_) => None,
    }
}

/// The next run takes bytes out of the control stream.
pub proof fn lemma_next_run_shrinks(st: RleModel)
    ensures
        next_run(st) matches Some(st2) ==> st2.ctrl.len() < st.ctrl.len(),
        st.valid() ==> (next_run(st) matches Some(st2) ==> st2.valid()),
{
    if let Ok((sign, left)) = byte_of(st.ctrl) {
        lemma_long_7bit_tagged_shrinks(K_BYTE_RLE_TYPE, sign, left);
    }
}

/// The next `n` difference bytes, and where the differences stand behind them.
pub open spec fn differences(st: RleModel, n: int) -> Option<(Seq<u8>, RleModel)>
    decreases st.ctrl.len(),
{
    if n <= 0 {
        Some((Seq::empty(), st))
    } else {
        match open_run(st, n) {
            None => None,
            Some((bytes, st1)) => if bytes.len() >= n {
                Some((bytes, st1))
            } else {
                match next_run(st1) {
                    None => None,
                    Some(st2) => {
                        proof {
                            lemma_next_run_shrinks(st1);
                        }
                        match differences(st2, n - bytes.len()) {
                            None => None,
                            Some((more, st3)) => Some((bytes + more, st3)),
                        }
                    },
                }
            },
        }
    }
}

/// As many difference bytes are given as are asked for.
pub proof fn lemma_differences_len(st: RleModel, n: int)
    requires
        st.valid(),
        n >= 0,
    ensures
        differences(st, n) matches Some((bytes, st1)) ==> bytes.len() == n && st1.valid(),
    decreases st.ctrl.len(),
{
    if n > 0 {
        if let Some((bytes, st1)) = open_run(st, n) {
            lemma_next_run_shrinks(st1);
            if bytes.len() < n {
                if let Some(st2) = next_run(st1) {
                    lemma_differences_len(st2, n - bytes.len());
                }
            }
        }
    }
}

/// First `n` and then `m` difference bytes, where both can be had.
pub open spec fn differences_in_two(st: RleModel, n: int, m: int) -> Option<(Seq<u8>, RleModel)> {
    match differences(st, n) {
        None => None,
        Some((first, st1)) => match differences(st1, m) {
            None => None,
            Some((second, st2)) => Some((first + second, st2)),
        },
    }
}

/// The open run in two parts is the open run in one.
proof fn lemma_open_run_split(st: RleModel, n: int, m: int)
    requires
        st.valid(),
        0 <= n <= st.set_len + st.copy_len,
        0 <= m,
    ensures
        match open_run(st, n) {
            None => open_run(st, n + m) is None,
            Some((first, st1)) => {
                &&& first.len() == n
                &&& st1.valid()
                &&& match open_run(st1, m) {
                    None => open_run(st, n + m) is None,
                    Some((second, st2)) => open_run(st, n + m) == Some((first + second, st2)),
                }
            },
        },
{
    let a = min(st.set_len, n);
    let b = min(st.copy_len, n - a);
    if let Some((first, st1)) = open_run(st, n) {
        let a2 = min(st1.set_len, m);
        let b2 = min(st1.copy_len, m - a2);
        assert(min(st.set_len, n + m) == a + a2);
        assert(min(st.copy_len, n + m - (a + a2)) == b + b2);
        if let Some((second, st2)) = open_run(st1, m) {
            let (both, st3) = open_run(st, n + m)->0;
            assert(st.code.skip(b).skip(b2) =~= st.code.skip(b + b2));
            assert(st2 == st3);
            assert(both =~= first + second);
        }
    }
}

/// The differences in two parts, where the open run gives the first part.
proof fn lemma_split_in_open_run(st: RleModel, n: int, m: int)
    requires
        st.valid(),
        0 < n <= st.set_len + st.copy_len,
        0 < m,
    ensures
        differences(st, n + m) == differences_in_two(st, n, m),
{
    lemma_open_run_split(st, n, m);
    match open_run(st, n) {
        None => {
            assert(differences(st, n + m) is None);
        },
        Some((first, st1)) => {
            assert(differences(st, n) == Some((first, st1)));
            match open_run(st1, m) {
                None => {
                    assert(differences(st1, m) is None);
                    assert(differences(st, n + m) is None);
                },
                Some((second, st2)) => {
                    assert(open_run(st, n + m) == Some((first + second, st2)));
                    if second.len() < m {
                        if let Some(st3) = next_run(st2) {
                            if let Some((more, st4)) = differences(st3, m - second.len()) {
                                assert(differences(st1, m) == Some((second + more, st4)));
                                assert(first + second + more =~= first + (second + more));
                            }
                        }
                    }
                },
            }
        },
    }
}

/// Two counts that both go beyond the open run take all of it.
proof fn lemma_open_run_used_up(st: RleModel, n: int, k: int)
    requires
        st.valid(),
        st.set_len + st.copy_len < n <= k,
    ensures
        open_run(st, n) == open_run(st, k),
        open_run(st, n) matches Some((bytes, _)) ==> bytes.len() == st.set_len + st.copy_len,
{
}

/// The differences do not depend on how many bytes are taken at a time.
pub proof fn law_differences_split(st: RleModel, n: int, m: int)
    requires
        st.valid(),
        0 <= n,
        0 <= m,
    ensures
        differences(st, n + m) == differences_in_two(st, n, m),
    decreases st.ctrl.len(),
{
    if n == 0 {
        if let Some((second, st2)) = differences(st, m) {
            assert(Seq::<u8>::empty() + second =~= second);
        }
    } else if m == 0 {
        if let Some((first, st1)) = differences(st, n) {
            assert(first + Seq::<u8>::empty() =~= first);
        }
    } else if n <= st.set_len + st.copy_len {
        lemma_split_in_open_run(st, n, m);
    } else {
        let all = st.set_len + st.copy_len;
        lemma_open_run_used_up(st, n, n + m);
        match open_run(st, n) {
            None => {
                assert(differences(st, n) is None);
                assert(differences(st, n + m) is None);
            },
            Some((bytes, st1)) => {
                lemma_next_run_shrinks(st1);
                match next_run(st1) {
                    None => {
                        assert(differences(st, n) is None);
                        assert(differences(st, n + m) is None);
                    },
                    Some(st2) => {
                        law_differences_split(st2, n - all, m);
                        assert(n - all + m == n + m - all);
                        lemma_behind_first(st, n, m, bytes, st1, st2);
                    },
                }
            },
        }
    }
}

/// The step of `law_differences_split` behind a run that is used up.
proof fn lemma_behind_first(
    st: RleModel,
    n: int,
    m: int,
    bytes: Seq<u8>,
    st1: RleModel,
    st2: RleModel,
)
    requires
        n > 0,
        m > 0,
        bytes.len() < n,
        open_run(st, n) == Some((bytes, st1)),
        open_run(st, n + m) == Some((bytes, st1)),
        next_run(st1) == Some(st2),
        differences(st2, n + m - bytes.len()) == differences_in_two(st2, n - bytes.len(), m),
    ensures
        differences(st, n + m) == differences_in_two(st, n, m),
{
    if let Some((more, st3)) = differences(st2, n - bytes.len()) {
        assert(differences(st, n) == Some((bytes + more, st3)));
        if let Some((second, st4)) = differences(st3, m) {
            assert(bytes + (more + second) =~= bytes + more + second);
        }
    }
}

/// The bytes of `cache` with `bytes` added to those from `pos` on, each sum
/// without its carry.
pub open spec fn added_at(cache: Seq<u8>, pos: int, bytes: Seq<u8>) -> Seq<u8> {
    Seq::new(
        cache.len(),
        |i: int|
            if pos <= i < pos + bytes.len() {
                ((cache[i] + bytes[i - pos]) % 256) as u8
            } else {
                cache[i]
            },
    )
}

/// Adding bytes and then more behind them is adding them all.
pub proof fn lemma_added_twice(cache: Seq<u8>, pos: int, first: Seq<u8>, second: Seq<u8>)
    requires
        0 <= pos,
        pos + first.len() + second.len() <= cache.len(),
    ensures
        added_at(added_at(cache, pos, first), pos + first.len(), second) == added_at(
            cache,
            pos,
            first + second,
        ),
{
    assert(added_at(added_at(cache, pos, first), pos + first.len(), second) =~= added_at(
        cache,
        pos,
        first + second,
    ));
}

/// Adds `value` to the `n` bytes of `cache` from `pos` on.
pub fn add_value(cache: &mut Vec<u8>, pos: usize, n: usize, value: u8)
    requires
        pos + n <= old(cache)@.len(),
    ensures
        final(cache)@ == added_at(old(cache)@, pos as int, Seq::new(n as nat, |i: int| value)),
{
    let ghost before = cache@;
    let ghost bytes = Seq::new(n as nat, |i: int| value);
    let len = cache.len();
    let mut i: usize = 0;
    while i < n
        invariant
            i <= n,
            len == cache@.len(),
            pos + n <= cache@.len(),
            cache@.len() == before.len(),
            forall|j: int|
                0 <= j < before.len() ==> #[trigger] cache@[j] == if pos <= j < pos + i {
                    ((before[j] + value) % 256) as u8
                } else {
                    before[j]
                },
        decreases n - i,
    {
        let sum: u16 = cache[pos + i] as u16 + value as u16;
        cache[pos + i] = (sum % 256) as u8;
        i = i + 1;
    }
    assert(cache@ =~= added_at(before, pos as int, bytes));
}

/// Adds `bytes` to those of `cache` from `pos` on.
pub fn add_bytes(cache: &mut Vec<u8>, pos: usize, bytes: &[u8])
    requires
        pos + bytes@.len() <= old(cache)@.len(),
    ensures
        final(cache)@ == added_at(old(cache)@, pos as int, bytes@),
{
    let ghost before = cache@;
    let n = bytes.len();
    let len = cache.len();
    let mut i: usize = 0;
    while i < n
        invariant
            i <= n,
            len == cache@.len(),
            n == bytes@.len(),
            pos + n <= cache@.len(),
            cache@.len() == before.len(),
            forall|j: int|
                0 <= j < before.len() ==> #[trigger] cache@[j] == if pos <= j < pos + i {
                    ((before[j] + bytes@[j - pos]) % 256) as u8
                } else {
                    before[j]
                },
        decreases n - i,
    {
        let sum: u16 = cache[pos + i] as u16 + bytes[i] as u16;
        cache[pos + i] = (sum % 256) as u8;
        i = i + 1;
    }
    assert(cache@ =~= added_at(before, pos as int, bytes@));
}

} // verus!
