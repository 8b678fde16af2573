//! The tape machine: the instruction tree, its mathematical semantics, and the
//! execution engine that interprets instruction trees against a growable tape.

use vstd::prelude::*;
use vstd::string::StringExecFns;

verus! {

/// One instruction of the target machine, plus the structural forms the code
/// generator builds: sequencing, loops, and compile-time position assertions.
pub enum Command {
    /// Add the (possibly negative) delta to the current cell, wrapping mod 2^32.
    Add(i32),
    /// Move the pointer by the delta; left moves clamp at cell 0, right moves
    /// extend the tape with fresh zero cells.
    Move(i32),
    /// Re-execute the body while the current cell is nonzero.
    Loop(Box<Command>),
    /// Execute the children in order.
    Sequence(Vec<Command>),
    /// A consistency check inserted by the code generator; erased on rendering.
    Debug(DebugCmd),
    /// Append the current cell to the output.
    Print,
    /// Overwrite the current cell with the next input value, or 0 if exhausted.
    Read,
}

/// Compile-time-only checks that the execution engine validates.
pub enum DebugCmd {
    /// The pointer must be at exactly this tape position.
    AssertPosition(usize),
}

/// The mathematical state of one run: tape contents, pointer position, the
/// full input with a cursor, and the output accumulated so far.
#[verifier::ext_equal]
pub ghost struct MachineState {
    pub tape: Seq<u32>,
    pub pos: nat,
    pub input: Seq<u32>,
    pub input_pos: nat,
    pub output: Seq<u32>,
}

/// The outcome of running a command for a bounded number of steps.
pub ghost enum RunResult {
    /// The command ran to completion in this state.
    Done(MachineState),
    /// A position assertion failed: the generated code is defective.
    Mismatch,
    /// The step budget ran out before the command completed.
    Pending,
}

pub const CELL_MODULUS: u64 = 0x1_0000_0000;

/// Wrapping 32-bit arithmetic on a cell.
pub open spec fn wrap(v: int) -> u32 {
    (v % (CELL_MODULUS as int)) as u32
}

impl MachineState {
    /// A state is well formed when the pointer is on the tape and the input
    /// cursor has not run past the input.
    pub open spec fn wf(self) -> bool {
        self.pos < self.tape.len() && self.input_pos <= self.input.len()
    }

    /// The cell under the pointer.
    pub open spec fn cell(self) -> u32 {
        self.tape[self.pos as int]
    }

    /// The initial state for a run over the given input: one zero cell.
    pub open spec fn init(input: Seq<u32>) -> MachineState {
        MachineState { tape: seq![0u32], pos: 0, input, input_pos: 0, output: seq![] }
    }

    /// Effect of `Add(d)`: wrapping addition on the current cell.
    pub open spec fn step_add(self, d: int) -> MachineState {
        MachineState { tape: self.tape.update(self.pos as int, wrap(self.cell() + d)), ..self }
    }

    /// Effect of `Move(d)`: right moves extend the tape with zeros as needed,
    /// left moves clamp at position 0.
    pub open spec fn step_move(self, d: int) -> MachineState {
        if d >= 0 {
            let target = self.pos + d;
            let tape = if target < self.tape.len() {
                self.tape
            } else {
                self.tape + Seq::new((target + 1 - self.tape.len()) as nat, |i: int| 0u32)
            };
            MachineState { tape, pos: target as nat, ..self }
        } else {
            let target: nat = if self.pos + d >= 0 { (self.pos + d) as nat } else { 0 };
            MachineState { pos: target, ..self }
        }
    }

    /// Effect of `Print`: append the current cell to the output.
    pub open spec fn step_print(self) -> MachineState {
        MachineState { output: self.output.push(self.cell()), ..self }
    }

    /// Effect of `Read`: consume the next input value, or write 0 when the
    /// input is exhausted (the cursor then stays put).
    pub open spec fn step_read(self) -> MachineState {
        if self.input_pos < self.input.len() {
            MachineState {
                tape: self.tape.update(self.pos as int, self.input[self.input_pos as int]),
                input_pos: self.input_pos + 1,
                ..self
            }
        } else {
            MachineState { tape: self.tape.update(self.pos as int, 0u32), ..self }
        }
    }
}

/// Big-step semantics of one command, bounded by a step budget so that the
/// definition is total: every recursive unfolding consumes fuel.
pub open spec fn run_cmd(c: Command, st: MachineState, fuel: nat) -> RunResult
    decreases fuel,
{
    if fuel == 0 {
        RunResult::Pending
    } else {
        let f = (fuel - 1) as nat;
        match c {
            Command::Add(d) => RunResult::Done(st.step_add(d as int)),
            Command::Move(d) => RunResult::Done(st.step_move(d as int)),
            Command::Loop(b) => {
                if st.cell() == 0 {
                    RunResult::Done(st)
                } else {
                    match run_cmd(*b, st, f) {
                        RunResult::Done(st2) => run_cmd(Command::Loop(b), st2, f),
                        r => r,
                    }
                }
            },
            Command::Sequence(v) => run_cmds(v@, st, f),
            Command::Debug(DebugCmd::AssertPosition(p)) => {
                if p as nat == st.pos {
                    RunResult::Done(st)
                } else {
                    RunResult::Mismatch
                }
            },
            Command::Print => RunResult::Done(st.step_print()),
            Command::Read => RunResult::Done(st.step_read()),
        }
    }
}

/// Big-step semantics of a sequence of commands, under the same step budget.
pub open spec fn run_cmds(cs: Seq<Command>, st: MachineState, fuel: nat) -> RunResult
    decreases fuel,
{
    if fuel == 0 {
        RunResult::Pending
    } else if cs.len() == 0 {
        RunResult::Done(st)
    } else {
        let f = (fuel - 1) as nat;
        match run_cmd(cs[0], st, f) {
            RunResult::Done(st2) => run_cmds(cs.drop_first(), st2, f),
            r => r,
        }
    }
}

/// What the execution engine reports for one bounded run.
pub enum RunStatus {
    /// The program ran to completion.
    Done,
    /// A position assertion failed: the generated code is defective.
    Mismatch,
    /// The step budget ran out first.
    Pending,
}

/// How a complete run can fail.
#[derive(Debug, PartialEq, Eq)]
pub enum ExecError {
    /// A position assertion in the program disagreed with the actual pointer
    /// position: a code-generation defect, reported loudly and never ignored.
    PositionMismatch,
    /// The astronomically large step budget ran out. The machine itself has no
    /// step bound; this bound exists only so that every run provably ends.
    StepLimit,
}

/// One run of the machine: a growable tape of wrapping cells, the pointer,
/// the input stream with its cursor, and the output accumulated so far.
pub struct ExecutionContext {
    tape: Vec<u32>,
    position: usize,
    output: Vec<u32>,
    input: Vec<u32>,
    input_position: usize,
}

impl View for ExecutionContext {
    type V = MachineState;

    closed spec fn view(&self) -> MachineState {
        MachineState {
            tape: self.tape@,
            pos: self.position as nat,
            input: self.input@,
            input_pos: self.input_position as nat,
            output: self.output@,
        }
    }
}

impl ExecutionContext {
    /// A fresh run over the given input: one zero cell, pointer at 0.
    pub fn new(input: &[u32]) -> (r: Self)
        ensures
            r@ == MachineState::init(input@),
            r@.wf(),
    {
        let mut owned: Vec<u32> = Vec::new();
        let mut k: usize = 0;
        while k < input.len()
            invariant
                k <= input.len(),
                owned@ == input@.subrange(0, k as int),
            decreases input.len() - k,
        {
            owned.push(input[k]);
            proof {
                assert(owned@ =~= input@.subrange(0, k as int + 1));
            }
            k = k + 1;
        }
        proof {
            assert(owned@ =~= input@);
        }
        let r = Self {
            tape: vec![0u32],
            position: 0,
            output: Vec::new(),
            input: owned,
            input_position: 0,
        };
        proof {
            assert(r@.tape =~= seq![0u32]);
            assert(r@ =~= MachineState::init(input@));
        }
        r
    }

    /// Move one cell left; at the left edge the move is a no-op.
    pub fn move_left(&mut self)
        requires
            old(self)@.wf(),
        ensures
            final(self)@ == old(self)@.step_move(-1),
            final(self)@.wf(),
    {
        if self.position != 0 {
            self.position = self.position - 1;
        }
    }

    /// Move one cell right, extending the tape with a zero cell if needed.
    pub fn move_right(&mut self)
        requires
            old(self)@.wf(),
        ensures
            final(self)@ == old(self)@.step_move(1),
            final(self)@.wf(),
    {
        let n = self.tape.len();
        if self.position + 1 >= n {
            self.tape.push(0);
        }
        self.position = self.position + 1;
        proof {
            assert(self@.tape =~= old(self)@.step_move(1).tape);
            assert(self@ =~= old(self)@.step_move(1));
        }
    }

    /// Move by a signed delta: right for positive, left (clamped) for negative.
    pub fn move_i(&mut self, i: i32)
        requires
            old(self)@.wf(),
        ensures
            final(self)@ == old(self)@.step_move(i as int),
            final(self)@.wf(),
    {
        let m: i64 = i as i64;
        if m >= 0 {
            let n: usize = m as usize;
            let mut k: usize = 0;
            proof {
                assert(self@ =~= old(self)@.step_move(0));
            }
            while k < n
                invariant
                    k <= n,
                    n == i as int,
                    self@ == old(self)@.step_move(k as int),
                    self@.wf(),
                decreases n - k,
            {
                proof {
                    lemma_step_move_chain_right(old(self)@, k as nat);
                }
                self.move_right();
                k = k + 1;
            }
        } else {
            let n: usize = (-m) as usize;
            let mut k: usize = 0;
            proof {
                assert(self@ =~= old(self)@.step_move(0));
            }
            while k < n
                invariant
                    k <= n,
                    n == -(i as int),
                    old(self)@.wf(),
                    self@ == old(self)@.step_move(-(k as int)),
                    self@.wf(),
                decreases n - k,
            {
                proof {
                    lemma_step_move_chain_left(old(self)@, k as nat);
                }
                self.move_left();
                k = k + 1;
            }
        }
    }

    /// Wrapping addition (or subtraction, for a negative delta) on the cell
    /// under the pointer.
    pub fn add(&mut self, i: i32)
        requires
            old(self)@.wf(),
        ensures
            final(self)@ == old(self)@.step_add(i as int),
            final(self)@.wf(),
    {
        let c = self.tape[self.position];
        let v = c.wrapping_add_signed(i);
        proof {
            lemma_wrap_in_range(c as int + i as int);
        }
        self.tape.set(self.position, v);
        proof {
            assert(self@ =~= old(self)@.step_add(i as int));
        }
    }

    /// The cell under the pointer.
    pub fn get_tape(&self) -> (r: &u32)
        requires
            self@.wf(),
        ensures
            *r == self@.cell(),
    {
        &self.tape[self.position]
    }

    /// The next input value, consuming it; 0 once the input is exhausted.
    pub fn get_input(&mut self) -> (r: u32)
        requires
            old(self)@.wf(),
        ensures
            final(self)@.wf(),
            old(self)@.input_pos < old(self)@.input.len() ==> {
                &&& r == old(self)@.input[old(self)@.input_pos as int]
                &&& final(self)@ == (MachineState { input_pos: old(self)@.input_pos + 1, ..old(self)@ })
            },
            old(self)@.input_pos >= old(self)@.input.len() ==> {
                &&& r == 0u32
                &&& final(self)@ == old(self)@
            },
    {
        if self.input_position >= self.input.len() {
            0
        } else {
            let input = self.input[self.input_position];
            self.input_position = self.input_position + 1;
            input
        }
    }

    /// Overwrite the cell under the pointer with the next input value.
    pub fn read(&mut self)
        requires
            old(self)@.wf(),
        ensures
            final(self)@ == old(self)@.step_read(),
            final(self)@.wf(),
    {
        let input = self.get_input();
        self.tape.set(self.position, input);
        proof {
            assert(self@ =~= old(self)@.step_read());
        }
    }
}

/// Moving right `j + 1` cells is moving right `j` cells, then one more.
pub proof fn lemma_step_move_chain_right(st: MachineState, j: nat)
    ensures
        st.step_move(j as int + 1) == st.step_move(j as int).step_move(1),
{
    let a = st.step_move(j as int);
    let b = a.step_move(1);
    let c = st.step_move(j as int + 1);
    assert(b.tape =~= c.tape);
    assert(b =~= c);
}

/// Moving left `j + 1` cells is moving left `j` cells, then one more.
pub proof fn lemma_step_move_chain_left(st: MachineState, j: nat)
    requires
        st.wf(),
    ensures
        st.step_move(-(j as int) - 1) == st.step_move(-(j as int)).step_move(-1),
{
    let a = st.step_move(-(j as int));
    let b = a.step_move(-1);
    let c = st.step_move(-(j as int) - 1);
    assert(b =~= c);
}

/// A sum of a cell and a 32-bit delta wraps into the cell range.
pub proof fn lemma_wrap_in_range(v: int)
    requires
        -(CELL_MODULUS as int) <= v < 2 * (CELL_MODULUS as int),
    ensures
        0 <= v < CELL_MODULUS ==> wrap(v) == v,
        v < 0 ==> wrap(v) == v + CELL_MODULUS,
        v >= CELL_MODULUS ==> wrap(v) == v - CELL_MODULUS,
{
    let m = CELL_MODULUS as int;
    if 0 <= v < m {
        assert(v % m == v) by (nonlinear_arith)
            requires 0 <= v < m;
    } else if v < 0 {
        assert(v % m == v + m) by (nonlinear_arith)
            requires -m <= v < 0;
    } else {
        assert(v % m == v - m) by (nonlinear_arith)
            requires m <= v < 2 * m;
    }
}

impl Command {
    /// Run the program against the given input, with a fresh machine.
    ///
    /// `Ok` returns exactly the output that the semantics `run_cmd` assigns to
    /// the program; a failed position assertion is reported as an error, never
    /// ignored.
    pub fn run(&self, input: &[u32]) -> (r: Result<Vec<u32>, ExecError>)
        ensures
            match r {
                Ok(out) => exists|f: nat|
                    #[trigger] run_cmd(*self, MachineState::init(input@), f) matches
                        RunResult::Done(st) && st.output == out@,
                Err(ExecError::PositionMismatch) => exists|f: nat|
                    #[trigger] run_cmd(*self, MachineState::init(input@), f)
                        == RunResult::Mismatch,
                Err(ExecError::StepLimit) =>
                    run_cmd(*self, MachineState::init(input@), u64::MAX as nat)
                        == RunResult::Pending,
            },
    {
        let mut context = ExecutionContext::new(input);
        let status = self.run_with_context(&mut context, u64::MAX);
        match status {
            RunStatus::Done => {
                proof {
                    let f = u64::MAX as nat;
                    assert(run_cmd(*self, MachineState::init(input@), f) matches
                        RunResult::Done(st) && st.output == context@.output);
                }
                Ok(context.output)
            },
            RunStatus::Mismatch => Err(ExecError::PositionMismatch),
            RunStatus::Pending => Err(ExecError::StepLimit),
        }
    }

    /// Run this command against an existing machine, within a step budget.
    /// The result mirrors the semantics `run_cmd` exactly.
    pub fn run_with_context(&self, context: &mut ExecutionContext, fuel: u64) -> (r: RunStatus)
        requires
            old(context)@.wf(),
        ensures
            final(context)@.wf(),
            match r {
                RunStatus::Done => run_cmd(*self, old(context)@, fuel as nat)
                    == RunResult::Done(final(context)@),
                RunStatus::Mismatch => run_cmd(*self, old(context)@, fuel as nat)
                    == RunResult::Mismatch,
                RunStatus::Pending => run_cmd(*self, old(context)@, fuel as nat)
                    == RunResult::Pending,
            },
        decreases fuel,
    {
        if fuel == 0 {
            return RunStatus::Pending;
        }
        let f = fuel - 1;
        match self {
            Command::Add(val) => {
                context.add(*val);
                RunStatus::Done
            },
            Command::Move(i) => {
                context.move_i(*i);
                RunStatus::Done
            },
            Command::Loop(body) => {
                let mut f2 = f;
                let ghost orig = context@;
                proof {
                    assert(run_cmd(*self, orig, fuel as nat) == run_cmd(*self, orig, (f2 + 1) as nat));
                }
                loop
                    invariant
                        f2 < fuel,
                        orig == old(context)@,
                        context@.wf(),
                        self matches Command::Loop(b) && b == body,
                        run_cmd(*self, orig, fuel as nat) == run_cmd(*self, context@, (f2 + 1) as nat),
                    decreases f2,
                {
                    if *context.get_tape() == 0 {
                        return RunStatus::Done;
                    }
                    if f2 == 0 {
                        proof {
                            assert(run_cmd(**body, context@, 0) == RunResult::Pending);
                            assert(run_cmd(*self, context@, 1) == RunResult::Pending);
                        }
                        return RunStatus::Pending;
                    }
                    let r = body.run_with_context(context, f2);
                    match r {
                        RunStatus::Done => {},
                        RunStatus::Mismatch => {
                            return RunStatus::Mismatch;
                        },
                        RunStatus::Pending => {
                            return RunStatus::Pending;
                        },
                    }
                    f2 = f2 - 1;
                }
            },
            Command::Sequence(commands) => {
                let n = commands.len();
                let mut i: usize = 0;
                let mut f2 = f;
                let ghost orig = context@;
                proof {
                    assert(commands@.subrange(0, n as int) =~= commands@);
                }
                while i < n
                    invariant
                        i <= n,
                        f2 < fuel,
                        orig == old(context)@,
                        n == commands.len(),
                        context@.wf(),
                        run_cmd(*self, orig, fuel as nat)
                            == run_cmds(commands@.subrange(i as int, n as int), context@, f2 as nat),
                        self matches Command::Sequence(cs) && cs == commands,
                    decreases n - i,
                {
                    if f2 == 0 {
                        return RunStatus::Pending;
                    }
                    f2 = f2 - 1;
                    let ghost before = context@;
                    let r = (&commands[i]).run_with_context(context, f2);
                    proof {
                        assert(commands@.subrange(i as int, n as int)[0] == commands@[i as int]);
                        assert(commands@.subrange(i as int, n as int).drop_first()
                            =~= commands@.subrange(i as int + 1, n as int));
                    }
                    match r {
                        RunStatus::Done => {},
                        RunStatus::Mismatch => {
                            return RunStatus::Mismatch;
                        },
                        RunStatus::Pending => {
                            return RunStatus::Pending;
                        },
                    }
                    i = i + 1;
                }
                if f2 == 0 {
                    return RunStatus::Pending;
                }
                proof {
                    assert(commands@.subrange(n as int, n as int).len() == 0);
                }
                RunStatus::Done
            },
            Command::Debug(cmd) => {
                if cmd.run(context) {
                    RunStatus::Done
                } else {
                    RunStatus::Mismatch
                }
            },
            Command::Print => {
                let v = *context.get_tape();
                context.push_output(v);
                RunStatus::Done
            },
            Command::Read => {
                context.read();
                RunStatus::Done
            },
        }
    }
}

impl ExecutionContext {
    /// Append a value to the output stream.
    fn push_output(&mut self, v: u32)
        requires
            old(self)@.wf(),
        ensures
            final(self)@ == (MachineState { output: old(self)@.output.push(v), ..old(self)@ }),
            final(self)@.wf(),
    {
        self.output.push(v);
    }
}

impl DebugCmd {
    /// Check this assertion against the actual machine: true exactly when the
    /// pointer is where the code generator believed it to be.
    pub fn run(&self, context: &ExecutionContext) -> (r: bool)
        ensures
            r == match *self {
                DebugCmd::AssertPosition(pos) => pos as nat == context@.pos,
            },
    {
        match self {
            DebugCmd::AssertPosition(pos) => *pos == context.position_value(),
        }
    }
}

impl ExecutionContext {
    /// The pointer position.
    pub fn position_value(&self) -> (r: usize)
        ensures
            r as nat == self@.pos,
    {
        self.position
    }
}

/// `n` copies of one symbol.
pub open spec fn repeat_char(ch: char, n: nat) -> Seq<char> {
    Seq::new(n, |i: int| ch)
}

/// Rendering to the target machine's textual alphabet. `Add` and `Move`
/// expand to runs of the four cell/pointer symbols (direction by sign), loops
/// render bracketed, `Print`/`Read` are the output/input symbols. With
/// `marks`, each position assertion renders as a `#` marker; without, it is
/// erased, as the target alphabet has no counterpart.
pub open spec fn render_cmd(c: Command, marks: bool) -> Seq<char>
    decreases c,
{
    match c {
        Command::Add(d) => if d >= 0 {
            repeat_char('+', d as nat)
        } else {
            repeat_char('-', (-(d as int)) as nat)
        },
        Command::Move(d) => if d >= 0 {
            repeat_char('>', d as nat)
        } else {
            repeat_char('<', (-(d as int)) as nat)
        },
        Command::Loop(b) => seq!['['] + render_cmd(*b, marks) + seq![']'],
        Command::Sequence(v) => render_cmds_from(v@, 0, marks),
        Command::Debug(d) => if marks {
            seq!['#']
        } else {
            Seq::<char>::empty()
        },
        Command::Print => seq!['.'],
        Command::Read => seq![','],
    }
}

/// Rendering of the commands of a sequence from index `i` on, concatenated.
pub open spec fn render_cmds_from(cs: Seq<Command>, i: int, marks: bool) -> Seq<char>
    decreases cs, cs.len() - i,
{
    if i < 0 || i >= cs.len() {
        Seq::<char>::empty()
    } else {
        render_cmd(cs[i], marks) + render_cmds_from(cs, i + 1, marks)
    }
}

impl Command {
    /// Render to the textual alphabet with `#` marking each position
    /// assertion: a readable representation of the full instruction tree.
    pub fn to_repr(&self) -> (r: String)
        ensures
            r@ == render_cmd(*self, true),
    {
        let mut out = String::new();
        self.render_into(&mut out, true);
        out
    }

    /// Render to the target machine's 8-symbol alphabet: bracket-balanced and
    /// directly executable by any conforming interpreter. Position assertions
    /// are compile-time-only checks and are erased.
    pub fn to_brainfuck(&self) -> (r: String)
        ensures
            r@ == render_cmd(*self, false),
    {
        let mut out = String::new();
        self.render_into(&mut out, false);
        out
    }

    /// Append this command's rendering to `out`.
    fn render_into(&self, out: &mut String, marks: bool)
        ensures
            final(out)@ == old(out)@ + render_cmd(*self, marks),
        decreases *self,
    {
        match self {
            Command::Add(d) => {
                if *d >= 0 {
                    push_repeat(out, '+', *d as usize);
                } else {
                    let n: usize = i32_magnitude(*d);
                    push_repeat(out, '-', n);
                }
            },
            Command::Move(d) => {
                if *d >= 0 {
                    push_repeat(out, '>', *d as usize);
                } else {
                    let n: usize = i32_magnitude(*d);
                    push_repeat(out, '<', n);
                }
            },
            Command::Loop(b) => {
                push_symbol(out, '[');
                b.render_into(out, marks);
                push_symbol(out, ']');
                proof {
                    assert(out@ =~= old(out)@ + render_cmd(*self, marks));
                }
            },
            Command::Sequence(v) => {
                let ghost base = out@;
                let n = v.len();
                let mut i: usize = 0;
                while i < n
                    invariant
                        i <= n,
                        n == v.len(),
                        self matches Command::Sequence(cs) && cs == v,
                        out@ + render_cmds_from(v@, i as int, marks)
                            == base + render_cmds_from(v@, 0, marks),
                    decreases n - i,
                {
                    (&v[i]).render_into(out, marks);
                    i = i + 1;
                }
                proof {
                    assert(out@ + render_cmds_from(v@, n as int, marks) =~= out@);
                    assert(out@ =~= base + render_cmd(*self, marks));
                }
            },
            Command::Debug(d) => {
                if marks {
                    push_symbol(out, '#');
                } else {
                    proof {
                        assert(out@ =~= old(out)@ + render_cmd(*self, marks));
                    }
                }
            },
            Command::Print => {
                push_symbol(out, '.');
            },
            Command::Read => {
                push_symbol(out, ',');
            },
        }
    }
}

/// The magnitude of a 32-bit delta, without overflow even at the extreme.
fn i32_magnitude(d: i32) -> (r: usize)
    requires
        d < 0,
    ensures
        r == -(d as int),
{
    let wide: i64 = d as i64;
    (-wide) as usize
}

/// Append one rendering symbol to `out`.
fn push_symbol(out: &mut String, ch: char)
    requires
        ch == '+' || ch == '-' || ch == '>' || ch == '<' || ch == '[' || ch == ']' || ch == '.'
            || ch == ',' || ch == '#',
    ensures
        final(out)@ == old(out)@ + seq![ch],
{
    if ch == '+' {
        proof { reveal_strlit("+"); }
        out.append("+");
    } else if ch == '-' {
        proof { reveal_strlit("-"); }
        out.append("-");
    } else if ch == '>' {
        proof { reveal_strlit(">"); }
        out.append(">");
    } else if ch == '<' {
        proof { reveal_strlit("<"); }
        out.append("<");
    } else if ch == '[' {
        proof { reveal_strlit("["); }
        out.append("[");
    } else if ch == ']' {
        proof { reveal_strlit("]"); }
        out.append("]");
    } else if ch == '.' {
        proof { reveal_strlit("."); }
        out.append(".");
    } else if ch == ',' {
        proof { reveal_strlit(","); }
        out.append(",");
    } else {
        proof { reveal_strlit("#"); }
        out.append("#");
    }
    proof {
        assert(out@ =~= old(out)@ + seq![ch]);
    }
}

/// Append `n` copies of a rendering symbol to `out`.
fn push_repeat(out: &mut String, ch: char, n: usize)
    requires
        ch == '+' || ch == '-' || ch == '>' || ch == '<',
    ensures
        final(out)@ == old(out)@ + repeat_char(ch, n as nat),
{
    let mut i: usize = 0;
    while i < n
        invariant
            i <= n,
            out@ == old(out)@ + repeat_char(ch, i as nat),
            ch == '+' || ch == '-' || ch == '>' || ch == '<',
        decreases n - i,
    {
        push_symbol(out, ch);
        proof {
            assert(out@ =~= old(out)@ + repeat_char(ch, i as nat + 1));
        }
        i = i + 1;
    }
    proof {
        assert(out@ =~= old(out)@ + repeat_char(ch, n as nat));
    }
}

} // verus!
