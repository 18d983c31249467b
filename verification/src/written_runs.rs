//! How difference bytes are written as runs, and the laws that reading the streams
//! gives the bytes back.
use crate::rle::{
    differences, differences_in_two, law_differences_split, next_run, open_run, RleModel,
};
use crate::rle0::{rle_digits, zero_differences, Rle0Model, DIGITS_SPAN};
use crate::written::{
    is_tag, law_tagged_number_read_back, number, open_digits, room, tagged_number,
};
use vstd::prelude::*;

verus! {

/// A run of difference bytes, of one of the four kinds.
pub enum Run {
    /// So many zeros.
    Zeros { length: int },
    /// So many bytes 255.
    Ones { length: int },
    /// One value so many times.
    Same { value: u8, length: int },
    /// Bytes of any values.
    Mixed { bytes: Seq<u8> },
}

/// The bytes of a run.
pub open spec fn run_bytes(run: Run) -> Seq<u8> {
    match run {
        Run::Zeros { length } => Seq::new(length as nat, |i: int| 0u8),
        Run::Ones { length } => Seq::new(length as nat, |i: int| 255u8),
        Run::Same { value, length } => Seq::new(length as nat, |i: int| value),
        Run::Mixed { bytes } => bytes,
    }
}

/// Whether a run has a length that can be written, which is one at least.
pub open spec fn is_run(run: Run) -> bool {
    &&& 1 <= run_bytes(run).len() <= i64::MAX
    &&& match run {
        Run::Zeros { length } => 0 <= length,
        Run::Ones { length } => 0 <= length,
        Run::Same { length, .. } => 0 <= length,
        Run::Mixed { .. } => true,
    }
}

/// What the control stream holds of a run: its kind, and one less than its length.
pub open spec fn run_ctrl(run: Run) -> Seq<u8> {
    let kind = match run {
        Run::Zeros { .. } => 0int,
        Run::Ones { .. } => 1int,
        Run::Same { .. } => 2int,
        Run::Mixed { .. } => 3int,
    };
    tagged_number(2, kind, run_bytes(run).len() - 1)
}

/// What the code stream holds of a run: nothing where its kind fixes the bytes, the
/// value where it is one and the same, and else the bytes themselves.
pub open spec fn run_code(run: Run) -> Seq<u8> {
    match run {
        Run::Zeros { .. } => Seq::empty(),
        Run::Ones { .. } => Seq::empty(),
        Run::Same { value, .. } => seq![value],
        Run::Mixed { bytes } => bytes,
    }
}

/// The bytes of runs one after the other.
pub open spec fn runs_bytes(runs: Seq<Run>) -> Seq<u8>
    decreases runs.len(),
{
    if runs.len() == 0 {
        Seq::empty()
    } else {
        run_bytes(runs[0]) + runs_bytes(runs.skip(1))
    }
}

/// The control stream of runs.
pub open spec fn runs_ctrl(runs: Seq<Run>) -> Seq<u8>
    decreases runs.len(),
{
    if runs.len() == 0 {
        Seq::empty()
    } else {
        run_ctrl(runs[0]) + runs_ctrl(runs.skip(1))
    }
}

/// The code stream of runs.
pub open spec fn runs_code(runs: Seq<Run>) -> Seq<u8>
    decreases runs.len(),
{
    if runs.len() == 0 {
        Seq::empty()
    } else {
        run_code(runs[0]) + runs_code(runs.skip(1))
    }
}

/// The two streams with no run open.
pub open spec fn none_open(value: u8, ctrl: Seq<u8>, code: Seq<u8>) -> RleModel {
    RleModel { set_len: 0, set_val: value, copy_len: 0, ctrl, code }
}

/// A written run is opened and gives its bytes.
proof fn lemma_run_read_back(run: Run, value: u8, ctrl: Seq<u8>, code: Seq<u8>) -> (st: RleModel)
    requires
        is_run(run),
    ensures
        next_run(none_open(value, run_ctrl(run) + ctrl, run_code(run) + code)) == Some(st),
        st.valid(),
        differences(st, run_bytes(run).len() as int) == Some(
            (run_bytes(run), none_open(st.set_val, ctrl, code)),
        ),
{
    reveal_with_fuel(room, 4);
    let kind = match run {
        Run::Zeros { .. } => 0int,
        Run::Ones { .. } => 1int,
        Run::Same { .. } => 2int,
        Run::Mixed { .. } => 3int,
    };
    let n = run_bytes(run).len() as int;
    assert(is_tag(2, kind));
    law_tagged_number_read_back(2, kind, n - 1, ctrl);
    let start = none_open(value, run_ctrl(run) + ctrl, run_code(run) + code);
    assert((run_ctrl(run) + ctrl)[0] as int / 64 == kind);
    assert((seq![start.code[0]] + code).skip(1) =~= code);
    assert(Seq::<u8>::empty() + code =~= code);
    let st = next_run(start)->0;
    let after = none_open(st.set_val, ctrl, code);
    match run {
        Run::Mixed { bytes } => {
            assert(st.code.take(n) =~= bytes);
            assert(st.code.skip(n) =~= code);
            assert((open_run(st, n)->0).0 =~= bytes);
        },
        _ => {
            assert(st.code =~= code);
            assert(st.code.skip(0) =~= code);
            assert((open_run(st, n)->0).0 =~= run_bytes(run));
        },
    }
    assert(open_run(st, n) == Some((run_bytes(run), after)));
    st
}

/// Reading undoes writing for difference bytes: bytes that are cut into runs of any
/// kinds and lengths, and written as a control and a code stream, are read back out
/// of the two, and what stands behind them in both is left.
#[verifier::rlimit(40)]
pub proof fn law_runs_read_back(runs: Seq<Run>, value: u8, ctrl: Seq<u8>, code: Seq<u8>)
    requires
        forall|i: int| 0 <= i < runs.len() ==> is_run(#[trigger] runs[i]),
    ensures
        differences(
            none_open(value, runs_ctrl(runs) + ctrl, runs_code(runs) + code),
            runs_bytes(runs).len() as int,
        ) matches Some((bytes, st)) && {
            &&& bytes == runs_bytes(runs)
            &&& st == none_open(st.set_val, ctrl, code)
        },
    decreases runs.len(),
{
    let start = none_open(value, runs_ctrl(runs) + ctrl, runs_code(runs) + code);
    let n = runs_bytes(runs).len() as int;
    if runs.len() == 0 {
        assert(Seq::<u8>::empty() + ctrl =~= ctrl);
        assert(Seq::<u8>::empty() + code =~= code);
    } else {
        let run = runs[0];
        let others = runs.skip(1);
        let more_ctrl = runs_ctrl(others) + ctrl;
        let more_code = runs_code(others) + code;
        assert(start.ctrl =~= run_ctrl(run) + more_ctrl);
        assert(start.code =~= run_code(run) + more_code);
        let st = lemma_run_read_back(run, value, more_ctrl, more_code);
        let k = run_bytes(run).len() as int;
        assert(is_run(runs[0]));
        assert forall|i: int| 0 <= i < others.len() implies is_run(#[trigger] others[i]) by {
            assert(others[i] == runs[i + 1]);
        }
        law_runs_read_back(others, st.set_val, ctrl, code);
        law_differences_split(st, k, n - k);
        assert(differences_in_two(st, k, n - k) == differences(st, n));
        let (bytes, last) = differences(st, n)->0;
        assert(bytes =~= runs_bytes(runs));
        assert(start.code.skip(0) =~= start.code);
        assert(start.code.take(0) =~= Seq::<u8>::empty());
        let none = (open_run(start, n)->0).0;
        assert(none =~= Seq::<u8>::empty());
        assert(open_run(start, n) == Some((none, start)));
        assert(none + bytes =~= bytes);
        assert(differences(start, n) == Some((none + bytes, last)));
    }
}

/// Digits that all say that more follow are read one after the other as a length.
proof fn lemma_open_length(v: int, rest: Seq<u8>)
    requires
        0 <= v < DIGITS_SPAN,
    ensures
        rle_digits(0, open_digits(0, 0, v) + rest) == rle_digits(v as u64, rest),
        open_digits(0, 0, v).len() > 0,
    decreases v,
{
    reveal_with_fuel(room, 2);
    let s = open_digits(0, 0, v) + rest;
    if v < 128 {
        assert(s.skip(1) =~= rest);
    } else {
        let digit = (v % 128 + 128) as u8;
        let more = seq![digit] + rest;
        lemma_open_length(v / 128, more);
        assert(s =~= open_digits(0, 0, v / 128) + more);
        assert(more.skip(1) =~= rest);
        assert(v / 128 * 128 + v % 128 == v);
    }
}

/// Reading undoes writing for the lengths of runs.
pub proof fn law_length_read_back(v: u64, rest: Seq<u8>)
    ensures
        rle_digits(0, number(v as int) + rest) == Some((v, rest)),
{
    reveal_with_fuel(room, 2);
    let s = number(v as int) + rest;
    if v < 128 {
        assert(s.skip(1) =~= rest);
    } else {
        let more = seq![(v % 128) as u8] + rest;
        lemma_open_length(v as int / 128, more);
        assert(s =~= open_digits(0, 0, v as int / 128) + more);
        assert(more.skip(1) =~= rest);
    }
}

/// Zeros, so many of them, and the bytes that stand behind them.
pub struct Stretch {
    pub zeros: u64,
    pub bytes: Seq<u8>,
}

/// The difference bytes of stretches one after the other.
pub open spec fn stretches_bytes(stretches: Seq<Stretch>) -> Seq<u8>
    decreases stretches.len(),
{
    if stretches.len() == 0 {
        Seq::empty()
    } else {
        Seq::new(stretches[0].zeros as nat, |i: int| 0u8) + stretches[0].bytes + stretches_bytes(
            stretches.skip(1),
        )
    }
}

/// Stretches as they are written: how many zeros there are, how many bytes, and the
/// bytes.
pub open spec fn stretches_written(stretches: Seq<Stretch>) -> Seq<u8>
    decreases stretches.len(),
{
    if stretches.len() == 0 {
        Seq::empty()
    } else {
        number(stretches[0].zeros as int) + number(stretches[0].bytes.len() as int)
            + stretches[0].bytes + stretches_written(stretches.skip(1))
    }
}

/// Reading undoes writing for zeros and bytes in turn: difference bytes that are cut
/// into stretches in any way are read back. Where the last stretch has bytes, what
/// stands behind it is left, and a run of zeros comes next there.
#[verifier::rlimit(40)]
pub proof fn law_stretches_read_back(stretches: Seq<Stretch>, rest: Seq<u8>)
    requires
        forall|i: int|
            0 <= i < stretches.len() ==> (#[trigger] stretches[i]).bytes.len() <= u64::MAX,
    ensures
        zero_differences(
            Rle0Model {
                len0: 0,
                lenv: 0,
                need_decode0: true,
                rest: stretches_written(stretches) + rest,
            },
            stretches_bytes(stretches).len() as int,
        ) matches Some((bytes, st)) && {
            &&& bytes == stretches_bytes(stretches)
            &&& (stretches.len() == 0 || stretches.last().bytes.len() > 0) ==> st == (Rle0Model {
                len0: 0,
                lenv: 0,
                need_decode0: true,
                rest,
            })
        },
    decreases stretches.len(),
{
    let all = stretches_bytes(stretches);
    let n = all.len() as int;
    let start = Rle0Model {
        len0: 0,
        lenv: 0,
        need_decode0: true,
        rest: stretches_written(stretches) + rest,
    };
    if stretches.len() == 0 {
        assert(start.rest =~= rest);
    } else {
        let one = stretches[0];
        assert(one.bytes.len() <= u64::MAX);
        let others = stretches.skip(1);
        assert forall|i: int| 0 <= i < others.len() implies (#[trigger] others[i]).bytes.len()
            <= u64::MAX by {
            assert(others[i] == stretches[i + 1]);
        }
        if others.len() > 0 {
            assert(others.last() == stretches.last());
        }
        law_stretches_read_back(others, rest);
        if n == 0 {
            assert(all =~= Seq::<u8>::empty());
        } else {
            let z = one.zeros as int;
            let k = one.bytes.len() as int;
            let zeros = Seq::new(z as nat, |i: int| 0u8);
            let tail = stretches_written(others) + rest;
            let behind_zeros = number(k) + (one.bytes + tail);
            assert(start.rest =~= number(z) + behind_zeros);
            law_length_read_back(one.zeros, behind_zeros);
            law_length_read_back(k as u64, one.bytes + tail);
            let st1 = Rle0Model { len0: z, lenv: 0, need_decode0: false, rest: behind_zeros };
            assert(zero_differences(start, n) == zero_differences(st1, n));
            let st2 = Rle0Model { len0: 0, ..st1 };
            let st3 = Rle0Model { len0: 0, lenv: k, need_decode0: true, rest: one.bytes + tail };
            let st4 = Rle0Model { len0: 0, lenv: 0, need_decode0: true, rest: tail };
            let m = n - z;
            assert(all =~= zeros + (one.bytes + stretches_bytes(others)));
            if m > 0 {
                assert(zero_differences(st2, m) == zero_differences(st3, m));
                assert((one.bytes + tail).take(k) =~= one.bytes);
                assert((one.bytes + tail).skip(k) =~= tail);
                let (more, last) = zero_differences(st4, m - k)->0;
                assert(one.bytes + more =~= one.bytes + stretches_bytes(others));
                if k == 0 {
                    assert(st3 == st4);
                    assert(one.bytes + more =~= more);
                }
                assert(zero_differences(st3, m) == Some((one.bytes + more, last)));
                if z == 0 {
                    assert(all =~= one.bytes + more);
                }
            } else {
                assert(zero_differences(st2, m) == Some((Seq::<u8>::empty(), st2)));
                assert(all =~= zeros + Seq::<u8>::empty());
            }
        }
    }
}

} // verus!
