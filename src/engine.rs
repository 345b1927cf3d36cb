use vstd::prelude::*;
use crate::error::{ExecError, Location};
use crate::jump::{
    balanced, build_jump_table, is_jump_table, lemma_depth_step, lemma_jump_pairs_mutual,
    lemma_no_error_iff_balanced, lemma_open_unique, matches_at, partner, structure_error,
};
use crate::position::{column_at, line_at, line_char_of};
use crate::text::chars_of;

verus! {

/// Number of cells on the tape.
pub const TAPE_SIZE: usize = 30000;

/// What increment and decrement do at the ends of a cell's range.
#[derive(Clone, Copy, Debug, PartialEq, Eq, Structural)]
pub enum ArithPolicy {
    /// 255 + 1 is 0 and 0 - 1 is 255.
    Wrap,
    /// Incrementing 255 or decrementing 0 is an error; the cell keeps its value.
    FailFast,
}

/// The tape and cursor that a sequence of programs runs against.
pub struct Interpreter {
    tape: Vec<u8>,
    cursor: usize,
    policy: ArithPolicy,
}

/// The abstract state of an interpreter.
pub struct Machine {
    pub tape: Seq<u8>,
    pub cursor: int,
    pub policy: ArithPolicy,
}

impl Machine {
    /// The tape has its fixed size and the cursor stands on it.
    pub open spec fn wf(self) -> bool {
        self.tape.len() == TAPE_SIZE && 0 <= self.cursor < TAPE_SIZE
    }

    pub open spec fn cell(self) -> u8 {
        self.tape[self.cursor]
    }

    pub open spec fn set_cell(self, v: u8) -> Machine {
        Machine { tape: self.tape.update(self.cursor, v), ..self }
    }

    pub open spec fn move_to(self, c: int) -> Machine {
        Machine { cursor: c, ..self }
    }
}

impl View for Interpreter {
    type V = Machine;

    closed spec fn view(&self) -> Machine {
        Machine { tape: self.tape@, cursor: self.cursor as int, policy: self.policy }
    }
}

/// What one instruction asks of the caller.
#[derive(Clone, Copy, Debug, PartialEq, Eq, Structural)]
pub enum Step {
    /// Go on at the given program position.
    Next(usize),
    /// Emit the byte, then go on at the given position.
    Output(u8, usize),
    /// The input instruction: obtain one byte and hand it to `accept_input`.
    NeedInput,
    /// The end of the program was reached.
    Halt,
    /// Execution stops with this error.
    Fault(ExecError),
}

/// How a bounded run ended.
#[derive(Clone, Copy, Debug, PartialEq, Eq, Structural)]
pub enum RunEnd {
    /// The end of the program was reached.
    Done,
    /// The step budget ran out first.
    OutOfFuel,
    /// A structural or runtime error stopped the run.
    Fault(ExecError),
}

/// The bytes a run emitted, and how it ended.
pub struct RunResult {
    pub output: Vec<u8>,
    pub end: RunEnd,
}

/// Where the instruction at `pc` stands, for an error report.
pub open spec fn location(m: Machine, s: Seq<char>, pc: int) -> Location {
    Location {
        cell: m.cursor as usize,
        pos: pc as usize,
        line: line_at(s, pc) as usize,
        column: column_at(s, pc) as usize,
    }
}

/// One instruction of program `s` at position `pc`.
pub open spec fn step_spec(m: Machine, s: Seq<char>, pc: int) -> (Machine, Step) {
    if pc >= s.len() {
        (m, Step::Halt)
    } else {
        let c = s[pc];
        let v = m.cell();
        let next = Step::Next((pc + 1) as usize);
        if c == '+' {
            if v == 255 && m.policy == ArithPolicy::FailFast {
                (m, Step::Fault(ExecError::CellOverflow(location(m, s, pc))))
            } else {
                (m.set_cell(((v + 1) % 256) as u8), next)
            }
        } else if c == '-' {
            if v == 0 && m.policy == ArithPolicy::FailFast {
                (m, Step::Fault(ExecError::CellUnderflow(location(m, s, pc))))
            } else {
                (m.set_cell(((v + 255) % 256) as u8), next)
            }
        } else if c == '>' {
            if m.cursor + 1 >= TAPE_SIZE {
                (m, Step::Fault(ExecError::CursorOverflow(location(m, s, pc))))
            } else {
                (m.move_to(m.cursor + 1), next)
            }
        } else if c == '<' {
            if m.cursor == 0 {
                (m, Step::Fault(ExecError::CursorUnderflow(location(m, s, pc))))
            } else {
                (m.move_to(m.cursor - 1), next)
            }
        } else if c == '.' {
            (m, Step::Output(v, (pc + 1) as usize))
        } else if c == ',' {
            (m, Step::NeedInput)
        } else if (c == '[' && v == 0) || (c == ']' && v != 0) {
            (m, Step::Next((partner(s, pc) + 1) as usize))
        } else {
            (m, next)
        }
    }
}

/// The input instruction at `pc` receiving `got`: a byte, or `None` when the
/// input source is closed or failed.
pub open spec fn input_spec(m: Machine, s: Seq<char>, pc: int, got: Option<u8>) -> (Machine, Result<usize, ExecError>) {
    match got {
        Some(b) => (m.set_cell(b), Ok((pc + 1) as usize)),
        None => (m, Err(ExecError::InputFailure(location(m, s, pc)))),
    }
}

/// Runs program `s` from `pc` for at most `fuel` instructions, each input
/// instruction taking the next byte of `input`. Gives the final state, the
/// bytes emitted, and how the run ended.
pub open spec fn run_spec(m: Machine, s: Seq<char>, pc: int, input: Seq<u8>, fuel: nat) -> (Machine, Seq<u8>, RunEnd)
    decreases fuel,
{
    if pc >= s.len() {
        (m, Seq::empty(), RunEnd::Done)
    } else if fuel == 0 {
        (m, Seq::empty(), RunEnd::OutOfFuel)
    } else {
        let (m2, st) = step_spec(m, s, pc);
        match st {
            Step::Next(n) => run_spec(m2, s, n as int, input, (fuel - 1) as nat),
            Step::Output(b, n) => {
                let rest = run_spec(m2, s, n as int, input, (fuel - 1) as nat);
                (rest.0, seq![b] + rest.1, rest.2)
            },
            Step::NeedInput => {
                let got = if input.len() > 0 { Some(input[0]) } else { None };
                let (m3, res) = input_spec(m2, s, pc, got);
                match res {
                    Ok(n) => run_spec(m3, s, n as int, input.drop_first(), (fuel - 1) as nat),
                    Err(e) => (m3, Seq::empty(), RunEnd::Fault(e)),
                }
            },
            Step::Halt => (m2, Seq::empty(), RunEnd::Done),
            Step::Fault(e) => (m2, Seq::empty(), RunEnd::Fault(e)),
        }
    }
}

/// Every instruction keeps the tape at its size and the cursor on it. A
/// move left from cell 0, or right from the last cell, is refused with the
/// matching bounds error and leaves the state as it was.
pub proof fn lemma_cursor_stays_on_tape(m: Machine, s: Seq<char>, pc: int)
    requires
        m.wf(),
        0 <= pc,
    ensures
        step_spec(m, s, pc).0.wf(),
        pc < s.len() && s[pc] == '<' && m.cursor == 0 ==> step_spec(m, s, pc) == (
            m,
            Step::Fault(ExecError::CursorUnderflow(location(m, s, pc))),
        ),
        pc < s.len() && s[pc] == '>' && m.cursor == TAPE_SIZE - 1 ==> step_spec(m, s, pc) == (
            m,
            Step::Fault(ExecError::CursorOverflow(location(m, s, pc))),
        ),
{
}

/// However long a program runs, its final state has the tape at its size
/// and the cursor on it.
pub proof fn lemma_run_stays_on_tape(m: Machine, s: Seq<char>, pc: int, input: Seq<u8>, fuel: nat)
    requires
        m.wf(),
        0 <= pc,
    ensures
        run_spec(m, s, pc, input, fuel).0.wf(),
    decreases fuel,
{
    if pc < s.len() && fuel > 0 {
        let (m2, st) = step_spec(m, s, pc);
        lemma_cursor_stays_on_tape(m, s, pc);
        match st {
            Step::Next(n) => lemma_run_stays_on_tape(m2, s, n as int, input, (fuel - 1) as nat),
            Step::Output(b, n) => lemma_run_stays_on_tape(m2, s, n as int, input, (fuel - 1) as nat),
            Step::NeedInput => {
                let got = if input.len() > 0 { Some(input[0]) } else { None };
                let (m3, res) = input_spec(m2, s, pc, got);
                if let Ok(n) = res {
                    lemma_run_stays_on_tape(m3, s, n as int, input.drop_first(), (fuel - 1) as nat);
                }
            },
            _ => {},
        }
    }
}

/// Increment and decrement at the ends of a cell's range follow the policy:
/// under wrapping, 255 + 1 is 0 and 0 - 1 is 255 with no error; under
/// fail-fast, both are errors that leave the cell unchanged.
pub proof fn lemma_cell_policy(m: Machine, s: Seq<char>, pc: int)
    requires
        m.wf(),
        0 <= pc < s.len(),
    ensures
        s[pc] == '+' && m.cell() == 255 && m.policy == ArithPolicy::Wrap ==> step_spec(m, s, pc) == (
            m.set_cell(0),
            Step::Next((pc + 1) as usize),
        ),
        s[pc] == '-' && m.cell() == 0 && m.policy == ArithPolicy::Wrap ==> step_spec(m, s, pc) == (
            m.set_cell(255),
            Step::Next((pc + 1) as usize),
        ),
        s[pc] == '+' && m.cell() == 255 && m.policy == ArithPolicy::FailFast ==> step_spec(m, s, pc)
            == (m, Step::Fault(ExecError::CellOverflow(location(m, s, pc)))),
        s[pc] == '-' && m.cell() == 0 && m.policy == ArithPolicy::FailFast ==> step_spec(m, s, pc)
            == (m, Step::Fault(ExecError::CellUnderflow(location(m, s, pc)))),
{
}

proof fn lemma_close_spins(m: Machine, s: Seq<char>, c: int, input: Seq<u8>, fuel: nat)
    requires
        m.wf(),
        0 < c < s.len() <= usize::MAX,
        s[c] == ']',
        partner(s, c) == c - 1,
        m.cell() != 0,
    ensures
        run_spec(m, s, c, input, fuel) == (m, Seq::<u8>::empty(), RunEnd::OutOfFuel),
    decreases fuel,
{
    if fuel > 0 {
        lemma_close_spins(m, s, c, input, (fuel - 1) as nat);
    }
}

/// A loop whose body leaves a non-zero cell as it is never ends by itself:
/// from `[]` on a non-zero cell, every step budget runs out, with no output
/// and no change of state.
pub proof fn lemma_empty_loop_spins(m: Machine, s: Seq<char>, pc: int, input: Seq<u8>, fuel: nat)
    requires
        m.wf(),
        0 <= pc,
        pc + 1 < s.len() <= usize::MAX,
        s[pc] == '[',
        s[pc + 1] == ']',
        m.cell() != 0,
    ensures
        run_spec(m, s, pc, input, fuel) == (m, Seq::<u8>::empty(), RunEnd::OutOfFuel),
{
    lemma_depth_step(s, pc);
    lemma_depth_step(s, pc + 1);
    assert(matches_at(s, pc, pc + 1));
    let o = partner(s, pc + 1);
    assert(matches_at(s, o, pc + 1));
    lemma_open_unique(s, o, pc, pc + 1);
    if fuel > 0 {
        lemma_close_spins(m, s, pc + 1, input, (fuel - 1) as nat);
    }
}

impl Interpreter {
    /// A fresh interpreter: every cell zero, cursor at 0, wrapping arithmetic.
    pub fn new() -> (r: Interpreter)
        ensures
            r@.wf(),
            r@.cursor == 0,
            r@.policy == ArithPolicy::Wrap,
            forall|i: int| 0 <= i < TAPE_SIZE ==> #[trigger] r@.tape[i] == 0,
    {
        Interpreter::with_policy(ArithPolicy::Wrap)
    }

    /// A fresh interpreter with the given arithmetic policy.
    pub fn with_policy(policy: ArithPolicy) -> (r: Interpreter)
        ensures
            r@.wf(),
            r@.cursor == 0,
            r@.policy == policy,
            forall|i: int| 0 <= i < TAPE_SIZE ==> #[trigger] r@.tape[i] == 0,
    {
        let mut tape: Vec<u8> = Vec::new();
        let mut k: usize = 0;
        while k < TAPE_SIZE
            invariant
                k <= TAPE_SIZE,
                tape@.len() == k,
                forall|i: int| 0 <= i < k ==> #[trigger] tape@[i] == 0,
            decreases TAPE_SIZE - k,
        {
            tape.push(0);
            k += 1;
        }
        Interpreter { tape, cursor: 0, policy }
    }

    /// Executes the instruction at `pc` of `code`, whose jump table is
    /// `table`. The input instruction is left to `accept_input`.
    pub fn step(&mut self, code: &Vec<char>, table: &Vec<Option<usize>>, pc: usize) -> (r: Step)
        requires
            old(self)@.wf(),
            balanced(code@),
            is_jump_table(code@, table@),
        ensures
            final(self)@.wf(),
            (final(self)@, r) == step_spec(old(self)@, code@, pc as int),
    {
        if pc >= code.len() {
            return Step::Halt;
        }
        let c = code[pc];
        let v = self.tape[self.cursor];
        if c == '+' {
            if v == 255 {
                if self.policy == ArithPolicy::FailFast {
                    return Step::Fault(ExecError::CellOverflow(self.location(code, pc)));
                }
                self.tape.set(self.cursor, 0);
            } else {
                self.tape.set(self.cursor, v + 1);
            }
            Step::Next(pc + 1)
        } else if c == '-' {
            if v == 0 {
                if self.policy == ArithPolicy::FailFast {
                    return Step::Fault(ExecError::CellUnderflow(self.location(code, pc)));
                }
                self.tape.set(self.cursor, 255);
            } else {
                self.tape.set(self.cursor, v - 1);
            }
            Step::Next(pc + 1)
        } else if c == '>' {
            if self.cursor + 1 >= TAPE_SIZE {
                return Step::Fault(ExecError::CursorOverflow(self.location(code, pc)));
            }
            self.cursor = self.cursor + 1;
            Step::Next(pc + 1)
        } else if c == '<' {
            if self.cursor == 0 {
                return Step::Fault(ExecError::CursorUnderflow(self.location(code, pc)));
            }
            self.cursor = self.cursor - 1;
            Step::Next(pc + 1)
        } else if c == '.' {
            Step::Output(v, pc + 1)
        } else if c == ',' {
            Step::NeedInput
        } else if (c == '[' && v == 0) || (c == ']' && v != 0) {
            proof {
                lemma_jump_pairs_mutual(code@, pc as int);
            }
            match table[pc] {
                Some(t) => Step::Next(t + 1),
                None => Step::Next(pc + 1),
            }
        } else {
            Step::Next(pc + 1)
        }
    }

    /// Completes the input instruction at `pc`: stores the byte `got` in the
    /// current cell and gives the next position, or fails when `got` is
    /// `None` (the input source closed or failed).
    pub fn accept_input(&mut self, code: &Vec<char>, pc: usize, got: Option<u8>) -> (r: Result<usize, ExecError>)
        requires
            old(self)@.wf(),
            pc < code@.len(),
        ensures
            final(self)@.wf(),
            (final(self)@, r) == input_spec(old(self)@, code@, pc as int, got),
    {
        match got {
            Some(b) => {
                self.tape.set(self.cursor, b);
                assert(pc < code.len());
                Ok(pc + 1)
            },
            None => Err(ExecError::InputFailure(self.location(code, pc))),
        }
    }

    /// Runs `code` from its first instruction for at most `fuel`
    /// instructions, each input instruction taking the next byte of `input`
    /// (a run with no byte left fails with an input error). A program with a
    /// structural error is rejected before it touches the tape.
    pub fn run(&mut self, code: &str, input: &Vec<u8>, fuel: usize) -> (r: RunResult)
        requires
            old(self)@.wf(),
        ensures
            final(self)@.wf(),
            match structure_error(code@) {
                Some(e) => final(self)@ == old(self)@ && r.output@.len() == 0 && r.end == RunEnd::Fault(e),
                None => {
                    let res = run_spec(old(self)@, code@, 0, input@, fuel as nat);
                    &&& final(self)@ == res.0
                    &&& r.output@ == res.1
                    &&& r.end == res.2
                },
            },
    {
        let chars = chars_of(code);
        let table = match build_jump_table(&chars) {
            Ok(t) => t,
            Err(e) => {
                return RunResult { output: Vec::new(), end: RunEnd::Fault(e) };
            },
        };
        proof {
            lemma_no_error_iff_balanced(chars@);
        }
        let ghost m0 = self@;
        let ghost s = chars@;
        let mut output: Vec<u8> = Vec::new();
        let mut pc: usize = 0;
        let mut k: usize = 0;
        let mut left: usize = fuel;
        proof {
            let rest = run_spec(self@, s, 0, input@.skip(0), fuel as nat);
            assert(input@.skip(0) =~= input@);
            assert(output@ + rest.1 =~= rest.1);
        }
        loop
            invariant
                m0 == old(self)@,
                structure_error(code@) is None,
                s == chars@,
                s == code@,
                balanced(s),
                is_jump_table(s, table@),
                self@.wf(),
                k <= input@.len(),
                run_spec(m0, s, 0, input@, fuel as nat) == ({
                    let rest = run_spec(self@, s, pc as int, input@.skip(k as int), left as nat);
                    (rest.0, output@ + rest.1, rest.2)
                }),
            decreases left,
        {
            let ghost before = run_spec(self@, s, pc as int, input@.skip(k as int), left as nat);
            if pc >= chars.len() {
                assert(before == (self@, Seq::<u8>::empty(), RunEnd::Done));
                assert(output@ + before.1 =~= output@);
                return RunResult { output, end: RunEnd::Done };
            }
            if left == 0 {
                assert(before == (self@, Seq::<u8>::empty(), RunEnd::OutOfFuel));
                assert(output@ + before.1 =~= output@);
                return RunResult { output, end: RunEnd::OutOfFuel };
            }
            match self.step(&chars, &table, pc) {
                Step::Next(n) => {
                    pc = n;
                },
                Step::Output(b, n) => {
                    let ghost out_before = output@;
                    output.push(b);
                    pc = n;
                    proof {
                        let rest = run_spec(self@, s, pc as int, input@.skip(k as int), (left - 1) as nat);
                        assert(out_before + (seq![b] + rest.1) =~= output@ + rest.1);
                    }
                },
                Step::NeedInput => {
                    let got = if k < input.len() {
                        Some(input[k])
                    } else {
                        None
                    };
                    proof {
                        if k < input@.len() {
                            assert(input@.skip(k as int)[0] == input@[k as int]);
                        }
                    }
                    match self.accept_input(&chars, pc, got) {
                        Ok(n) => {
                            proof {
                                assert(input@.skip(k as int).drop_first() =~= input@.skip(k + 1));
                            }
                            pc = n;
                            k = k + 1;
                        },
                        Err(e) => {
                            assert(before == (self@, Seq::<u8>::empty(), RunEnd::Fault(e)));
                            assert(output@ + Seq::<u8>::empty() =~= output@);
                            return RunResult { output, end: RunEnd::Fault(e) };
                        },
                    }
                },
                Step::Halt => {
                    assert(output@ + Seq::<u8>::empty() =~= output@);
                    return RunResult { output, end: RunEnd::Done };
                },
                Step::Fault(e) => {
                    assert(output@ + Seq::<u8>::empty() =~= output@);
                    return RunResult { output, end: RunEnd::Fault(e) };
                },
            }
            left = left - 1;
        }
    }

    /// The cursor's cell index.
    pub fn cursor(&self) -> (r: usize)
        ensures
            r == self@.cursor,
    {
        self.cursor
    }

    /// The value of cell `i`, or `None` when `i` is off the tape.
    pub fn cell(&self, i: usize) -> (r: Option<u8>)
        ensures
            r == (if i < self@.tape.len() { Some(self@.tape[i as int]) } else { None::<u8> }),
    {
        if i < self.tape.len() {
            Some(self.tape[i])
        } else {
            None
        }
    }

    /// The arithmetic policy this interpreter applies.
    pub fn policy(&self) -> (r: ArithPolicy)
        ensures
            r == self@.policy,
    {
        self.policy
    }

    fn location(&self, code: &Vec<char>, pc: usize) -> (r: Location)
        requires
            pc < code@.len(),
        ensures
            r == location(self@, code@, pc as int),
    {
        let (line, column) = match line_char_of(code, pc) {
            Some(lc) => lc,
            None => (0, 0),
        };
        Location { cell: self.cursor, pos: pc, line, column }
    }
}

} // verus!
