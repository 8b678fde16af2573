//! Laws connecting the code generator to the machine semantics: what the
//! emitted instruction sequences do when they are run.

use vstd::prelude::*;

use crate::machine::{Command, MachineState, RunResult, run_cmd, run_cmds, wrap, CELL_MODULUS};
use crate::machine::lemma_wrap_in_range;
use crate::codegen::{cmds_goto, cmds_zero, cmds_read, cmds_print, cmds_add_const, dec_loop_cmd,
    assert_cmd, is_loop_seq, is_seq_cmd, add_loop1_body, add_loop2_body, add_code_shape,
    SLOT_LIMIT};
use vstd::arithmetic::div_mod::lemma_add_mod_noop;

verus! {

/// A completed run stays completed, with the same outcome, under any larger
/// step budget.
pub proof fn lemma_fuel_mono_cmd(c: Command, st: MachineState, f1: nat, f2: nat)
    requires
        f1 <= f2,
        run_cmd(c, st, f1) != RunResult::Pending,
    ensures
        run_cmd(c, st, f2) == run_cmd(c, st, f1),
    decreases f1,
{
    match c {
        Command::Loop(b) => {
            if st.cell() != 0 {
                let r = run_cmd(*b, st, (f1 - 1) as nat);
                lemma_fuel_mono_cmd(*b, st, (f1 - 1) as nat, (f2 - 1) as nat);
                match r {
                    RunResult::Done(st2) => {
                        lemma_fuel_mono_cmd(c, st2, (f1 - 1) as nat, (f2 - 1) as nat);
                    },
                    _ => {},
                }
            }
        },
        Command::Sequence(v) => {
            lemma_fuel_mono_cmds(v@, st, (f1 - 1) as nat, (f2 - 1) as nat);
        },
        _ => {},
    }
}

/// As `lemma_fuel_mono_cmd`, for command sequences.
pub proof fn lemma_fuel_mono_cmds(cs: Seq<Command>, st: MachineState, f1: nat, f2: nat)
    requires
        f1 <= f2,
        run_cmds(cs, st, f1) != RunResult::Pending,
    ensures
        run_cmds(cs, st, f2) == run_cmds(cs, st, f1),
    decreases f1,
{
    if cs.len() > 0 {
        let r = run_cmd(cs[0], st, (f1 - 1) as nat);
        lemma_fuel_mono_cmd(cs[0], st, (f1 - 1) as nat, (f2 - 1) as nat);
        match r {
            RunResult::Done(st2) => {
                lemma_fuel_mono_cmds(cs.drop_first(), st2, (f1 - 1) as nat, (f2 - 1) as nat);
            },
            _ => {},
        }
    }
}

/// Runs compose: a run of `a` to completion followed by a run of `b` is a run
/// of `a + b`, under the summed budget.
pub proof fn lemma_run_cmds_append(
    a: Seq<Command>,
    b: Seq<Command>,
    st: MachineState,
    m: MachineState,
    w: MachineState,
    fa: nat,
    fb: nat,
)
    requires
        run_cmds(a, st, fa) == RunResult::Done(m),
        run_cmds(b, m, fb) == RunResult::Done(w),
    ensures
        run_cmds(a + b, st, fa + fb) == RunResult::Done(w),
    decreases a.len(),
{
    if a.len() == 0 {
        assert(m == st);
        assert(a + b =~= b);
        lemma_fuel_mono_cmds(b, st, fb, fa + fb);
    } else {
        let r0 = run_cmd(a[0], st, (fa - 1) as nat);
        match r0 {
            RunResult::Done(m1) => {
                lemma_run_cmds_append(a.drop_first(), b, m1, m, w, (fa - 1) as nat, fb);
                lemma_fuel_mono_cmd(a[0], st, (fa - 1) as nat, (fa + fb - 1) as nat);
                assert((a + b)[0] == a[0]);
                assert((a + b).drop_first() =~= a.drop_first() + b);
            },
            _ => {
                assert(false);
            },
        }
    }
}

/// A one-command sequence runs as the command does.
pub proof fn lemma_run_cmds_one(c: Command, st: MachineState, m: MachineState, f: nat)
    requires
        run_cmd(c, st, f) == RunResult::Done(m),
    ensures
        run_cmds(seq![c], st, f + 2) == RunResult::Done(m),
{
    lemma_fuel_mono_cmd(c, st, f, f + 1);
    assert(seq![c][0] == c);
    assert(seq![c].drop_first() =~= Seq::<Command>::empty());
    assert(run_cmds(seq![c].drop_first(), m, f + 1) == RunResult::Done(m));
}

/// Running what `goto` emits, from the position the generator tracked, moves
/// the pointer to the slot and passes the emitted assertion. When the slot is
/// already on the tape, the tape is untouched.
pub proof fn lemma_run_goto(slot: usize, pos: usize, st: MachineState)
    requires
        st.wf(),
        st.pos == pos,
        slot < st.tape.len(),
        slot <= SLOT_LIMIT,
        pos <= SLOT_LIMIT,
    ensures
        run_cmds(cmds_goto(slot, pos), st, 6) == RunResult::Done(
            MachineState { pos: slot as nat, ..st },
        ),
        (MachineState { pos: slot as nat, ..st }).wf(),
{
    let target = MachineState { pos: slot as nat, ..st };
    if slot == pos {
        assert(st =~= target);
        assert(run_cmd(assert_cmd(slot), st, 1) == RunResult::Done(st));
        lemma_run_cmds_one(assert_cmd(slot), st, st, 1);
        lemma_fuel_mono_cmds(cmds_goto(slot, pos), st, 3, 6);
    } else {
        let d: i32 = (slot - pos) as i32;
        assert(d as int == slot - pos);
        let m1 = st.step_move(d as int);
        assert(m1 =~= target) by {
            if d >= 0 {
                assert(st.pos + d as int == slot);
                assert(st.pos + d < st.tape.len());
            }
        }
        assert(run_cmd(Command::Move(d), st, 1) == RunResult::Done(m1));
        assert(run_cmd(assert_cmd(slot), m1, 1) == RunResult::Done(m1));
        assert(cmds_goto(slot, pos) =~= seq![Command::Move(d)] + seq![assert_cmd(slot)]);
        lemma_run_cmds_one(Command::Move(d), st, m1, 1);
        lemma_run_cmds_one(assert_cmd(slot), m1, m1, 1);
        lemma_run_cmds_append(
            seq![Command::Move(d)],
            seq![assert_cmd(slot)],
            st,
            m1,
            m1,
            3,
            3,
        );
    }
}

/// The decrement loop drives the current cell to zero, whatever value it
/// starts from, and moves nothing else.
pub proof fn lemma_run_dec_loop(st: MachineState) -> (f: nat)
    requires
        st.wf(),
    ensures
        run_cmd(dec_loop_cmd(), st, f) == RunResult::Done(
            MachineState { tape: st.tape.update(st.pos as int, 0u32), ..st },
        ),
        f >= 1,
    decreases st.cell(),
{
    let target = MachineState { tape: st.tape.update(st.pos as int, 0u32), ..st };
    if st.cell() == 0 {
        assert(st =~= target);
        assert(run_cmd(dec_loop_cmd(), st, 1) == RunResult::Done(st));
        1
    } else {
        lemma_wrap_in_range(st.cell() - 1);
        let st1 = st.step_add(-1);
        assert(st1.cell() == st.cell() - 1);
        assert(st1.wf());
        let f1 = lemma_run_dec_loop(st1);
        let target1 = MachineState { tape: st1.tape.update(st1.pos as int, 0u32), ..st1 };
        assert(target1 =~= target);
        let fuel = f1 + 2;
        assert(run_cmd(Command::Add(-1i32), st, (fuel - 1) as nat) == RunResult::Done(st1));
        lemma_fuel_mono_cmd(dec_loop_cmd(), st1, f1, (fuel - 1) as nat);
        assert(run_cmd(dec_loop_cmd(), st, fuel) == RunResult::Done(target));
        fuel
    }
}

/// Running what `zero` emits zeroes the slot's cell, ends at the slot, and
/// passes both emitted assertions.
pub proof fn lemma_run_zero(slot: usize, pos: usize, st: MachineState) -> (f: nat)
    requires
        st.wf(),
        st.pos == pos,
        slot < st.tape.len(),
        slot <= SLOT_LIMIT,
        pos <= SLOT_LIMIT,
    ensures
        run_cmds(cmds_zero(slot, pos), st, f) == RunResult::Done(
            MachineState { tape: st.tape.update(slot as int, 0u32), pos: slot as nat, ..st },
        ),
        (MachineState { tape: st.tape.update(slot as int, 0u32), pos: slot as nat, ..st }).wf(),
    decreases 1int,
{
    let m1 = MachineState { pos: slot as nat, ..st };
    lemma_run_goto(slot, pos, st);
    let fd = lemma_run_dec_loop(m1);
    let m2 = MachineState { tape: m1.tape.update(slot as int, 0u32), ..m1 };
    let target = MachineState { tape: st.tape.update(slot as int, 0u32), pos: slot as nat, ..st };
    assert(m2 =~= target);
    assert(run_cmd(assert_cmd(slot), m2, 1) == RunResult::Done(m2));
    lemma_run_cmds_one(dec_loop_cmd(), m1, m2, fd);
    lemma_run_cmds_one(assert_cmd(slot), m2, m2, 1);
    lemma_run_cmds_append(seq![dec_loop_cmd()], seq![assert_cmd(slot)], m1, m2, m2, fd + 2, 3);
    lemma_run_cmds_append(
        cmds_goto(slot, pos),
        seq![dec_loop_cmd()] + seq![assert_cmd(slot)],
        st,
        m1,
        m2,
        6,
        fd + 5,
    );
    assert(cmds_zero(slot, pos) =~= cmds_goto(slot, pos)
        + (seq![dec_loop_cmd()] + seq![assert_cmd(slot)]));
    fd + 11
}

/// Running what `add_const` emits adds the constant (wrapping) to the slot's
/// cell, ends at the slot, and passes the emitted assertion.
pub proof fn lemma_run_add_const(slot: usize, pos: usize, val: i32, st: MachineState)
    requires
        st.wf(),
        st.pos == pos,
        slot < st.tape.len(),
        slot <= SLOT_LIMIT,
        pos <= SLOT_LIMIT,
    ensures
        run_cmds(cmds_add_const(slot, pos, val), st, 10) == RunResult::Done(
            MachineState {
                tape: st.tape.update(slot as int, wrap(st.tape[slot as int] + val)),
                pos: slot as nat,
                ..st
            },
        ),
{
    let m1 = MachineState { pos: slot as nat, ..st };
    lemma_run_goto(slot, pos, st);
    let m2 = m1.step_add(val as int);
    let target = MachineState {
        tape: st.tape.update(slot as int, wrap(st.tape[slot as int] + val)),
        pos: slot as nat,
        ..st
    };
    assert(m2 =~= target);
    assert(run_cmd(Command::Add(val), m1, 1) == RunResult::Done(m2));
    lemma_run_cmds_one(Command::Add(val), m1, m2, 1);
    lemma_run_cmds_append(cmds_goto(slot, pos), seq![Command::Add(val)], st, m1, m2, 6, 3);
    assert(cmds_add_const(slot, pos, val) =~= cmds_goto(slot, pos) + seq![Command::Add(val)]);
    lemma_fuel_mono_cmds(cmds_add_const(slot, pos, val), st, 9, 10);
}

/// Running what `read` emits stores the next input value (or 0 when the input
/// is exhausted) in the slot's cell and ends at the slot.
pub proof fn lemma_run_read(slot: usize, pos: usize, st: MachineState)
    requires
        st.wf(),
        st.pos == pos,
        slot < st.tape.len(),
        slot <= SLOT_LIMIT,
        pos <= SLOT_LIMIT,
    ensures
        run_cmds(cmds_read(slot, pos), st, 10) == RunResult::Done(
            (MachineState { pos: slot as nat, ..st }).step_read(),
        ),
        (MachineState { pos: slot as nat, ..st }).step_read().pos == slot,
{
    let m1 = MachineState { pos: slot as nat, ..st };
    lemma_run_goto(slot, pos, st);
    let m2 = m1.step_read();
    assert(run_cmd(Command::Read, m1, 1) == RunResult::Done(m2));
    lemma_run_cmds_one(Command::Read, m1, m2, 1);
    lemma_run_cmds_append(cmds_goto(slot, pos), seq![Command::Read], st, m1, m2, 6, 3);
    assert(cmds_read(slot, pos) =~= cmds_goto(slot, pos) + seq![Command::Read]);
    lemma_fuel_mono_cmds(cmds_read(slot, pos), st, 9, 10);
}

/// Running what `print` emits appends the slot's cell to the output and ends
/// at the slot.
pub proof fn lemma_run_print(slot: usize, pos: usize, st: MachineState)
    requires
        st.wf(),
        st.pos == pos,
        slot < st.tape.len(),
        slot <= SLOT_LIMIT,
        pos <= SLOT_LIMIT,
    ensures
        run_cmds(cmds_print(slot, pos), st, 10) == RunResult::Done(
            MachineState {
                pos: slot as nat,
                output: st.output.push(st.tape[slot as int]),
                ..st
            },
        ),
{
    let m1 = MachineState { pos: slot as nat, ..st };
    lemma_run_goto(slot, pos, st);
    let m2 = m1.step_print();
    let target = MachineState {
        pos: slot as nat,
        output: st.output.push(st.tape[slot as int]),
        ..st
    };
    assert(m2 =~= target);
    assert(run_cmd(Command::Print, m1, 1) == RunResult::Done(m2));
    lemma_run_cmds_one(Command::Print, m1, m2, 1);
    lemma_run_cmds_append(cmds_goto(slot, pos), seq![Command::Print], st, m1, m2, 6, 3);
    assert(cmds_print(slot, pos) =~= cmds_goto(slot, pos) + seq![Command::Print]);
    lemma_fuel_mono_cmds(cmds_print(slot, pos), st, 9, 10);
}

/// `k`-fold application of a state transformer.
pub open spec fn iterate(
    fx: spec_fn(MachineState) -> MachineState,
    k: nat,
    st: MachineState,
) -> MachineState
    decreases k,
{
    if k == 0 {
        st
    } else {
        iterate(fx, (k - 1) as nat, fx(st))
    }
}

/// The while-loop law: a loop over slot `v` whose body, from any state the
/// invariant admits, completes with effect `fx` and decrements `v`'s cell by
/// exactly one, executes its body exactly `k` times when `v`'s cell starts at
/// `k` (and zero times for `k == 0`), ending with `v`'s cell at zero.
pub proof fn lemma_run_while_loop(
    c: Command,
    body: Seq<Command>,
    v: usize,
    inv: spec_fn(MachineState) -> bool,
    fx: spec_fn(MachineState) -> MachineState,
    bf: nat,
    st: MachineState,
) -> (f: nat)
    requires
        is_loop_seq(c, body),
        inv(st),
        st.wf(),
        st.pos == v,
        forall|s: MachineState| #[trigger] inv(s) ==> v < s.tape.len(),
        forall|s: MachineState|
            inv(s) && s.wf() && s.pos == v && s.tape[v as int] != 0 ==> {
                &&& #[trigger] run_cmds(body, s, bf) == RunResult::Done(fx(s))
                &&& inv(fx(s))
                &&& fx(s).wf()
                &&& fx(s).pos == v
                &&& fx(s).tape[v as int] == s.tape[v as int] - 1
            },
    ensures
        run_cmd(c, st, f) == RunResult::Done(iterate(fx, st.tape[v as int] as nat, st)),
        iterate(fx, st.tape[v as int] as nat, st).tape[v as int] == 0,
        iterate(fx, st.tape[v as int] as nat, st).pos == v,
        iterate(fx, st.tape[v as int] as nat, st).wf(),
        inv(iterate(fx, st.tape[v as int] as nat, st)),
        f >= 1,
    decreases st.tape[v as int],
{
    let k = st.tape[v as int];
    if k == 0 {
        assert(st.cell() == 0);
        assert(run_cmd(c, st, 1) == RunResult::Done(st));
        1
    } else {
        assert(run_cmds(body, st, bf) == RunResult::Done(fx(st)));
        let s1 = fx(st);
        let f1 = lemma_run_while_loop(c, body, v, inv, fx, bf, s1);
        let fuel = f1 + bf + 3;
        let fin = iterate(fx, (k - 1) as nat, s1);
        assert(iterate(fx, k as nat, st) == fin);
        match c {
            Command::Loop(b) => {
                assert(st.cell() != 0);
                lemma_fuel_mono_cmds(body, st, bf, (fuel - 2) as nat);
                match *b {
                    Command::Sequence(vec) => {
                        assert(vec@ == body);
                        assert(run_cmd(*b, st, (fuel - 1) as nat)
                            == run_cmds(body, st, (fuel - 2) as nat));
                    },
                    _ => {
                        assert(false);
                    },
                }
                assert(run_cmd(*b, st, (fuel - 1) as nat) == RunResult::Done(s1));
                lemma_fuel_mono_cmd(c, s1, f1, (fuel - 1) as nat);
                assert(run_cmd(c, st, fuel) == RunResult::Done(fin));
            },
            _ => {
                assert(false);
            },
        }
        fuel
    }
}

/// Wrapping respects prior wrapping: adding onto an already-wrapped value
/// wraps to the same cell as adding onto the raw sum.
pub proof fn lemma_wrap_shift(a: int, b: int)
    ensures
        wrap(wrap(a) + b) == wrap(a + b),
{
    let m = CELL_MODULUS as int;
    lemma_add_mod_noop(a, b, m);
    lemma_add_mod_noop(a % m, b, m);
    assert((a % m) % m == a % m) by {
        lemma_wrap_in_range(a % m);
    }
}

/// One pass of `add`'s first loop body: the temporary and the left operand
/// gain one unit, the right operand loses one, the pointer returns to the
/// right operand.
pub open spec fn phase1_step(s: MachineState, l: usize, r: usize, t: usize) -> MachineState {
    MachineState {
        tape: s.tape.update(t as int, wrap(s.tape[t as int] + 1)).update(
            l as int,
            wrap(s.tape[l as int] + 1),
        ).update(r as int, wrap(s.tape[r as int] - 1)),
        pos: r as nat,
        ..s
    }
}

/// One pass of `add`'s second loop body: the right operand regains one unit
/// from the temporary, the pointer returns to the temporary.
pub open spec fn phase2_step(s: MachineState, r: usize, t: usize) -> MachineState {
    MachineState {
        tape: s.tape.update(r as int, wrap(s.tape[r as int] + 1)).update(
            t as int,
            wrap(s.tape[t as int] - 1),
        ),
        pos: t as nat,
        ..s
    }
}

/// Distinct slots within reach of the tape and of the move operand.
pub open spec fn add_slots_ok(l: usize, r: usize, t: usize, len: nat) -> bool {
    &&& l < len
    &&& r < len
    &&& t < len
    &&& l != r
    &&& t != l
    &&& t != r
    &&& l <= SLOT_LIMIT
    &&& r <= SLOT_LIMIT
    &&& t <= SLOT_LIMIT
}

/// Running the first loop's body once, from the right operand, has exactly the
/// effect `phase1_step` describes.
pub proof fn lemma_run_add_loop1_body(l: usize, r: usize, t: usize, s: MachineState)
    requires
        s.wf(),
        s.pos == r,
        add_slots_ok(l, r, t, s.tape.len()),
    ensures
        run_cmds(add_loop1_body(l, r, t), s, 36) == RunResult::Done(phase1_step(s, l, r, t)),
{
    let s0 = s;
    assert(run_cmd(assert_cmd(r), s0, 1) == RunResult::Done(s0));
    lemma_run_cmds_one(assert_cmd(r), s0, s0, 1);
    let x1 = seq![assert_cmd(r)];

    lemma_run_add_const(t, r, 1i32, s0);
    let s1 = MachineState {
        tape: s0.tape.update(t as int, wrap(s0.tape[t as int] + 1)),
        pos: t as nat,
        ..s0
    };
    lemma_run_cmds_append(x1, cmds_add_const(t, r, 1i32), s0, s0, s1, 3, 10);
    let x2 = x1 + cmds_add_const(t, r, 1i32);

    lemma_run_add_const(l, t, 1i32, s1);
    let s2 = MachineState {
        tape: s1.tape.update(l as int, wrap(s1.tape[l as int] + 1)),
        pos: l as nat,
        ..s1
    };
    lemma_run_cmds_append(x2, cmds_add_const(l, t, 1i32), s0, s1, s2, 13, 10);
    let x3 = x2 + cmds_add_const(l, t, 1i32);

    lemma_run_add_const(r, l, -1i32, s2);
    let s3 = MachineState {
        tape: s2.tape.update(r as int, wrap(s2.tape[r as int] - 1)),
        pos: r as nat,
        ..s2
    };
    lemma_run_cmds_append(x3, cmds_add_const(r, l, -1i32), s0, s2, s3, 23, 10);
    let x4 = x3 + cmds_add_const(r, l, -1i32);

    assert(run_cmd(assert_cmd(r), s3, 1) == RunResult::Done(s3));
    lemma_run_cmds_one(assert_cmd(r), s3, s3, 1);
    lemma_run_cmds_append(x4, cmds_goto(r, r), s0, s3, s3, 33, 3);

    assert(add_loop1_body(l, r, t) =~= x4 + cmds_goto(r, r));
    assert(s3 =~= phase1_step(s, l, r, t));
}

/// Running the second loop's body once, from the temporary, has exactly the
/// effect `phase2_step` describes.
pub proof fn lemma_run_add_loop2_body(l: usize, r: usize, t: usize, s: MachineState)
    requires
        s.wf(),
        s.pos == t,
        add_slots_ok(l, r, t, s.tape.len()),
    ensures
        run_cmds(add_loop2_body(r, t), s, 26) == RunResult::Done(phase2_step(s, r, t)),
{
    let s0 = s;
    assert(run_cmd(assert_cmd(t), s0, 1) == RunResult::Done(s0));
    lemma_run_cmds_one(assert_cmd(t), s0, s0, 1);
    let x1 = seq![assert_cmd(t)];

    lemma_run_add_const(r, t, 1i32, s0);
    let s1 = MachineState {
        tape: s0.tape.update(r as int, wrap(s0.tape[r as int] + 1)),
        pos: r as nat,
        ..s0
    };
    lemma_run_cmds_append(x1, cmds_add_const(r, t, 1i32), s0, s0, s1, 3, 10);
    let x2 = x1 + cmds_add_const(r, t, 1i32);

    lemma_run_add_const(t, r, -1i32, s1);
    let s2 = MachineState {
        tape: s1.tape.update(t as int, wrap(s1.tape[t as int] - 1)),
        pos: t as nat,
        ..s1
    };
    lemma_run_cmds_append(x2, cmds_add_const(t, r, -1i32), s0, s1, s2, 13, 10);
    let x3 = x2 + cmds_add_const(t, r, -1i32);

    assert(run_cmd(assert_cmd(t), s2, 1) == RunResult::Done(s2));
    lemma_run_cmds_one(assert_cmd(t), s2, s2, 1);
    lemma_run_cmds_append(x3, cmds_goto(t, t), s0, s2, s2, 23, 3);

    assert(add_loop2_body(r, t) =~= x3 + cmds_goto(t, t));
    assert(s2 =~= phase2_step(s, r, t));
}

/// `k` passes of the first loop body move `k` units out of the right operand
/// into both the temporary and the left operand.
pub proof fn lemma_iterate_phase1(
    fx: spec_fn(MachineState) -> MachineState,
    l: usize,
    r: usize,
    t: usize,
    k: nat,
    s: MachineState,
)
    requires
        forall|sx: MachineState| #[trigger] fx(sx) == phase1_step(sx, l, r, t),
        s.wf(),
        s.pos == r,
        add_slots_ok(l, r, t, s.tape.len()),
        k <= s.tape[r as int],
    ensures
        iterate(fx, k, s) == (MachineState {
            tape: s.tape.update(t as int, wrap(s.tape[t as int] + k)).update(
                l as int,
                wrap(s.tape[l as int] + k),
            ).update(r as int, (s.tape[r as int] - k) as u32),
            ..s
        }),
    decreases k,
{
    let target = MachineState {
        tape: s.tape.update(t as int, wrap(s.tape[t as int] + k)).update(
            l as int,
            wrap(s.tape[l as int] + k),
        ).update(r as int, (s.tape[r as int] - k) as u32),
        ..s
    };
    if k == 0 {
        lemma_wrap_in_range(s.tape[t as int] as int);
        lemma_wrap_in_range(s.tape[l as int] as int);
        assert(target.tape =~= s.tape);
        assert(iterate(fx, k, s) =~= target);
    } else {
        let s1 = fx(s);
        assert(s1 == phase1_step(s, l, r, t));
        lemma_wrap_in_range(s.tape[r as int] - 1);
        assert(s1.tape[r as int] == s.tape[r as int] - 1);
        assert(s1.wf());
        lemma_iterate_phase1(fx, l, r, t, (k - 1) as nat, s1);
        lemma_wrap_shift(s.tape[t as int] + 1, k - 1);
        lemma_wrap_shift(s.tape[l as int] + 1, k - 1);
        assert(iterate(fx, (k - 1) as nat, s1).tape =~= target.tape);
        assert(iterate(fx, k, s) == iterate(fx, (k - 1) as nat, s1));
        assert(iterate(fx, k, s) =~= target);
    }
}

/// `k` passes of the second loop body move `k` units from the temporary back
/// into the right operand.
pub proof fn lemma_iterate_phase2(
    fx: spec_fn(MachineState) -> MachineState,
    l: usize,
    r: usize,
    t: usize,
    k: nat,
    s: MachineState,
)
    requires
        forall|sx: MachineState| #[trigger] fx(sx) == phase2_step(sx, r, t),
        s.wf(),
        s.pos == t,
        add_slots_ok(l, r, t, s.tape.len()),
        k <= s.tape[t as int],
    ensures
        iterate(fx, k, s) == (MachineState {
            tape: s.tape.update(r as int, wrap(s.tape[r as int] + k)).update(
                t as int,
                (s.tape[t as int] - k) as u32,
            ),
            ..s
        }),
    decreases k,
{
    let target = MachineState {
        tape: s.tape.update(r as int, wrap(s.tape[r as int] + k)).update(
            t as int,
            (s.tape[t as int] - k) as u32,
        ),
        ..s
    };
    if k == 0 {
        lemma_wrap_in_range(s.tape[r as int] as int);
        assert(target.tape =~= s.tape);
        assert(iterate(fx, k, s) =~= target);
    } else {
        let s1 = fx(s);
        assert(s1 == phase2_step(s, r, t));
        lemma_wrap_in_range(s.tape[t as int] - 1);
        assert(s1.tape[t as int] == s.tape[t as int] - 1);
        assert(s1.wf());
        lemma_iterate_phase2(fx, l, r, t, (k - 1) as nat, s1);
        lemma_wrap_shift(s.tape[r as int] + 1, k - 1);
        assert(iterate(fx, (k - 1) as nat, s1).tape =~= target.tape);
        assert(iterate(fx, k, s) =~= target);
    }
}

/// The `add` law: running exactly what `add` appended, from a machine state
/// at the generator's tracked position, adds the right operand's cell into
/// the left operand's cell modulo 2^32, restores the right operand, leaves
/// the temporary zero, ends at the temporary's slot (the tracked position
/// after the operation), and passes every emitted position assertion.
pub proof fn lemma_run_add_emitted(
    c0: Seq<Command>,
    cw: Seq<Command>,
    l: usize,
    r: usize,
    t: usize,
    p0: usize,
    st: MachineState,
) -> (f: nat)
    requires
        add_code_shape(c0, cw, l, r, t, p0),
        st.wf(),
        st.pos == p0,
        p0 <= SLOT_LIMIT,
        add_slots_ok(l, r, t, st.tape.len()),
    ensures
        run_cmds(cw.subrange(c0.len() as int, cw.len() as int), st, f) == RunResult::Done(
            MachineState {
                tape: st.tape.update(l as int, wrap(st.tape[l as int] + st.tape[r as int]))
                    .update(t as int, 0u32),
                pos: t as nat,
                ..st
            },
        ),
{
    let x = st.tape[l as int];
    let y = st.tape[r as int];
    let pre = cmds_zero(t, p0) + cmds_goto(r, t);
    let mid = cmds_goto(t, r);
    let i1 = c0.len() + pre.len();
    let i2 = i1 + 2 + mid.len();
    let lp1 = cw[i1 as int];
    let lp2 = cw[i2 as int];
    let delta = cw.subrange(c0.len() as int, cw.len() as int);
    let concat = pre + seq![lp1, assert_cmd(r)] + mid + seq![lp2, assert_cmd(t)];
    assert(delta =~= concat) by {
        assert forall|j: int| 0 <= j < delta.len() implies delta[j] == concat[j] by {
            if j < pre.len() {
                assert(cw.subrange(c0.len() as int, i1 as int)[j] == pre[j]);
                assert(delta[j] == cw[c0.len() + j]);
            } else if j < pre.len() + 2 {
            } else if j < pre.len() + 2 + mid.len() {
                assert(cw.subrange(i1 as int + 2, i2 as int)[j - pre.len() - 2]
                    == mid[j - pre.len() - 2]);
                assert(delta[j] == cw[c0.len() + j]);
            }
        }
    }

    // The zeroing of the temporary, then the move to the right operand.
    let fz = lemma_run_zero(t, p0, st);
    let s_zero = MachineState { tape: st.tape.update(t as int, 0u32), pos: t as nat, ..st };
    lemma_run_goto(r, t, s_zero);
    let s2 = MachineState { pos: r as nat, ..s_zero };
    lemma_run_cmds_append(cmds_zero(t, p0), cmds_goto(r, t), st, s_zero, s2, fz, 6);

    // First loop: drain the right operand into the temporary and the left.
    let body1 = add_loop1_body(l, r, t);
    let fx1 = |sx: MachineState| phase1_step(sx, l, r, t);
    let inv1 = |sx: MachineState| sx.tape.len() == st.tape.len();
    assert forall|sx: MachineState| #[trigger] inv1(sx) implies r < sx.tape.len() by {}
    assert forall|sx: MachineState|
        inv1(sx) && sx.wf() && sx.pos == r && sx.tape[r as int] != 0 implies {
            &&& #[trigger] run_cmds(body1, sx, 36) == RunResult::Done(fx1(sx))
            &&& inv1(fx1(sx))
            &&& fx1(sx).wf()
            &&& fx1(sx).pos == r
            &&& fx1(sx).tape[r as int] == sx.tape[r as int] - 1
        } by {
        lemma_run_add_loop1_body(l, r, t, sx);
        lemma_wrap_in_range(sx.tape[r as int] - 1);
    }
    let f1 = lemma_run_while_loop(lp1, body1, r, inv1, fx1, 36, s2);
    let fin1 = iterate(fx1, s2.tape[r as int] as nat, s2);
    lemma_iterate_phase1(fx1, l, r, t, y as nat, s2);
    lemma_wrap_in_range(y as int);
    assert(s2.tape[t as int] == 0 && s2.tape[l as int] == x && s2.tape[r as int] == y);
    let fin1_t = s2.tape.update(t as int, wrap(0 + y)).update(l as int, wrap(x + y)).update(
        r as int,
        0u32,
    );
    assert(fin1.tape =~= fin1_t);
    assert(run_cmd(assert_cmd(r), fin1, 1) == RunResult::Done(fin1));

    // Move to the temporary, then the second loop restores the right operand.
    lemma_run_goto(t, r, fin1);
    let s3 = MachineState { pos: t as nat, ..fin1 };
    let body2 = add_loop2_body(r, t);
    let fx2 = |sx: MachineState| phase2_step(sx, r, t);
    assert forall|sx: MachineState| #[trigger] inv1(sx) implies t < sx.tape.len() by {}
    assert forall|sx: MachineState|
        inv1(sx) && sx.wf() && sx.pos == t && sx.tape[t as int] != 0 implies {
            &&& #[trigger] run_cmds(body2, sx, 26) == RunResult::Done(fx2(sx))
            &&& inv1(fx2(sx))
            &&& fx2(sx).wf()
            &&& fx2(sx).pos == t
            &&& fx2(sx).tape[t as int] == sx.tape[t as int] - 1
        } by {
        lemma_run_add_loop2_body(l, r, t, sx);
        lemma_wrap_in_range(sx.tape[t as int] - 1);
    }
    let f2 = lemma_run_while_loop(lp2, body2, t, inv1, fx2, 26, s3);
    let fin2 = iterate(fx2, s3.tape[t as int] as nat, s3);
    assert(s3.tape[t as int] == wrap(0 + y) && s3.tape[r as int] == 0);
    lemma_iterate_phase2(fx2, l, r, t, wrap(0 + y) as nat, s3);
    assert(run_cmd(assert_cmd(t), fin2, 1) == RunResult::Done(fin2));

    // The final state: the sum in the left operand, the right operand
    // restored, the temporary zero.
    let target = MachineState {
        tape: st.tape.update(l as int, wrap(x + y)).update(t as int, 0u32),
        pos: t as nat,
        ..st
    };
    assert(fin2.tape =~= target.tape);
    assert(fin2 =~= target);

    // Stitch the five stretches together.
    lemma_run_cmds_one(lp1, s2, fin1, f1);
    lemma_run_cmds_one(assert_cmd(r), fin1, fin1, 1);
    lemma_run_cmds_append(seq![lp1], seq![assert_cmd(r)], s2, fin1, fin1, f1 + 2, 3);
    assert(seq![lp1, assert_cmd(r)] =~= seq![lp1] + seq![assert_cmd(r)]);
    lemma_run_cmds_append(pre, seq![lp1, assert_cmd(r)], st, s2, fin1, fz + 6, f1 + 5);
    lemma_run_cmds_append(
        pre + seq![lp1, assert_cmd(r)],
        mid,
        st,
        fin1,
        s3,
        fz + 6 + f1 + 5,
        6,
    );
    lemma_run_cmds_one(lp2, s3, fin2, f2);
    lemma_run_cmds_one(assert_cmd(t), fin2, fin2, 1);
    lemma_run_cmds_append(seq![lp2], seq![assert_cmd(t)], s3, fin2, fin2, f2 + 2, 3);
    assert(seq![lp2, assert_cmd(t)] =~= seq![lp2] + seq![assert_cmd(t)]);
    lemma_run_cmds_append(
        pre + seq![lp1, assert_cmd(r)] + mid,
        seq![lp2, assert_cmd(t)],
        st,
        s3,
        fin2,
        fz + 6 + f1 + 5 + 6,
        f2 + 5,
    );
    let ftotal = fz + 6 + f1 + 5 + 6 + f2 + 5;
    assert(run_cmds(concat, st, ftotal) == RunResult::Done(target));
    ftotal
}

/// The `set` law: running exactly what `set` appended copies the right
/// operand's cell into the left operand's cell, leaves the right operand
/// unchanged, leaves the temporary zero, and ends at the temporary's slot.
pub proof fn lemma_run_set_emitted(
    c0: Seq<Command>,
    cw: Seq<Command>,
    l: usize,
    r: usize,
    t: usize,
    p0: usize,
    st: MachineState,
) -> (f: nat)
    requires
        add_code_shape(c0 + cmds_zero(l, p0), cw, l, r, t, l),
        st.wf(),
        st.pos == p0,
        p0 <= SLOT_LIMIT,
        add_slots_ok(l, r, t, st.tape.len()),
    ensures
        run_cmds(cw.subrange(c0.len() as int, cw.len() as int), st, f) == RunResult::Done(
            MachineState {
                tape: st.tape.update(l as int, st.tape[r as int]).update(t as int, 0u32),
                pos: t as nat,
                ..st
            },
        ),
{
    let y = st.tape[r as int];
    let c0z = c0 + cmds_zero(l, p0);
    let fz = lemma_run_zero(l, p0, st);
    let s_zero = MachineState { tape: st.tape.update(l as int, 0u32), pos: l as nat, ..st };
    let fa = lemma_run_add_emitted(c0z, cw, l, r, t, l, s_zero);
    let delta_add = cw.subrange(c0z.len() as int, cw.len() as int);
    let delta = cw.subrange(c0.len() as int, cw.len() as int);
    assert(delta =~= cmds_zero(l, p0) + delta_add) by {
        assert forall|j: int| 0 <= j < delta.len() implies
            delta[j] == (cmds_zero(l, p0) + delta_add)[j] by {
            if j < cmds_zero(l, p0).len() {
                assert(cw.take(c0z.len() as int)[c0.len() + j] == c0z[c0.len() + j]);
                assert(delta[j] == cw[c0.len() + j]);
            } else {
                assert(delta[j] == cw[c0.len() + j]);
            }
        }
    }
    let mend = MachineState {
        tape: s_zero.tape.update(l as int, wrap(s_zero.tape[l as int] + s_zero.tape[r as int]))
            .update(t as int, 0u32),
        pos: t as nat,
        ..s_zero
    };
    lemma_wrap_in_range(y as int);
    let target = MachineState {
        tape: st.tape.update(l as int, y).update(t as int, 0u32),
        pos: t as nat,
        ..st
    };
    assert(mend.tape =~= target.tape);
    assert(mend =~= target);
    lemma_run_cmds_append(cmds_zero(l, p0), delta_add, st, s_zero, mend, fz, fa);
    fz + fa
}

/// A compiled program (one sequence node over the emitted instructions) runs
/// exactly as the emitted instruction sequence does.
pub proof fn lemma_run_compiled(p: Command, code: Seq<Command>, st: MachineState, f: nat)
    requires
        is_seq_cmd(p, code),
    ensures
        run_cmd(p, st, f + 1) == run_cmds(code, st, f),
{
    match p {
        Command::Sequence(v) => {
            assert(v@ == code);
        },
        _ => {
            assert(false);
        },
    }
}

} // verus!
