use crate::ir::{counted, foldable, Code, IR};
use crate::opcode::{is_pair, Opcode};
use vstd::prelude::*;

verus! {

broadcast use vstd::std_specs::hash::group_hash_axioms;

/// The state of a run: the tape, the index of the next instruction and the
/// index of the current cell.
pub struct State {
    pub tape: Seq<u8>,
    pub pc: int,
    pub sp: int,
}

/// What a step asks of the host.
#[derive(Debug, Clone, Copy, PartialEq, Eq, Structural)]
pub enum Event {
    /// The program counter is past the last instruction. Nothing changed.
    Halted,
    /// An instruction was executed that needs nothing from the host.
    Advanced,
    /// The host is to write this byte.
    Output(u8),
    /// The host is to read one byte and hand it over with `store`.
    Input,
    /// The tape pointer would pass the largest index. Nothing changed.
    Exhausted,
}

/// A tape extended with zero cells until it has at least `len` cells.
pub open spec fn grown(tape: Seq<u8>, len: int) -> Seq<u8> {
    if len <= tape.len() {
        tape
    } else {
        tape + Seq::new((len - tape.len()) as nat, |i: int| 0u8)
    }
}

/// A cell's value after `x` is added to it.
pub open spec fn cell_add(c: u8, x: u8) -> u8 {
    ((c + x) % 256) as u8
}

/// A cell's value after `x` is subtracted from it.
pub open spec fn cell_sub(c: u8, x: u8) -> u8 {
    ((c - x) % 256) as u8
}

/// Where a taken jump with target `x` continues in a program of `len`
/// instructions: after the target, or at the end where the target is
/// outside the program.
pub open spec fn landing(x: u32, len: int) -> int {
    if x < len {
        x + 1
    } else {
        len
    }
}

/// The state after one step of `code`, and what the step asks of the host.
/// `limit` is the largest index that the tape pointer can take.
pub open spec fn next(code: Seq<IR>, s: State, limit: int) -> (State, Event) {
    if s.pc >= code.len() {
        (s, Event::Halted)
    } else {
        let cell = s.tape[s.sp];
        match code[s.pc] {
            IR::SHR(x) => if s.sp + x > limit {
                (s, Event::Exhausted)
            } else {
                (State { tape: grown(s.tape, s.sp + x + 1), pc: s.pc + 1, sp: s.sp + x }, Event::Advanced)
            },
            IR::SHL(x) => (State { sp: if s.sp >= x { s.sp - x } else { 0 }, pc: s.pc + 1, ..s }, Event::Advanced),
            IR::ADD(x) => (State { tape: s.tape.update(s.sp, cell_add(cell, x)), pc: s.pc + 1, ..s }, Event::Advanced),
            IR::SUB(x) => (State { tape: s.tape.update(s.sp, cell_sub(cell, x)), pc: s.pc + 1, ..s }, Event::Advanced),
            IR::PUTCHAR => (State { pc: s.pc + 1, ..s }, Event::Output(cell)),
            IR::GETCHAR => (State { pc: s.pc + 1, ..s }, Event::Input),
            IR::JIZ(x) => (State { pc: if cell == 0 { landing(x, code.len() as int) } else { s.pc + 1 }, ..s }, Event::Advanced),
            IR::JNZ(x) => (State { pc: if cell != 0 { landing(x, code.len() as int) } else { s.pc + 1 }, ..s }, Event::Advanced),
        }
    }
}

/// The state after one step of an unfolded program with jump table `jt`,
/// and what the step asks of the host. `limit` is the largest index that
/// the tape pointer can take.
pub open spec fn next_token(code: Seq<Opcode>, jt: Map<usize, usize>, s: State, limit: int) -> (
    State,
    Event,
) {
    if s.pc >= code.len() {
        (s, Event::Halted)
    } else {
        let cell = s.tape[s.sp];
        let partner = jt[s.pc as usize];
        match code[s.pc] {
            Opcode::SHR => if s.sp + 1 > limit {
                (s, Event::Exhausted)
            } else {
                (State { tape: grown(s.tape, s.sp + 2), pc: s.pc + 1, sp: s.sp + 1 }, Event::Advanced)
            },
            Opcode::SHL => (State { sp: if s.sp >= 1 { s.sp - 1 } else { 0 }, pc: s.pc + 1, ..s }, Event::Advanced),
            Opcode::ADD => (State { tape: s.tape.update(s.sp, cell_add(cell, 1)), pc: s.pc + 1, ..s }, Event::Advanced),
            Opcode::SUB => (State { tape: s.tape.update(s.sp, cell_sub(cell, 1)), pc: s.pc + 1, ..s }, Event::Advanced),
            Opcode::PUTCHAR => (State { pc: s.pc + 1, ..s }, Event::Output(cell)),
            Opcode::GETCHAR => (State { pc: s.pc + 1, ..s }, Event::Input),
            Opcode::LB => (State { pc: if cell == 0 { partner + 1 } else { s.pc + 1 }, ..s }, Event::Advanced),
            Opcode::RB => (State { pc: if cell != 0 { partner + 1 } else { s.pc + 1 }, ..s }, Event::Advanced),
        }
    }
}

/// A machine that runs a folded program one instruction at a time, leaving
/// input and output to its host.
pub struct Interpreter {
    stack: Vec<u8>,
    pc: usize,
    sp: usize,
}

impl View for Interpreter {
    type V = State;

    closed spec fn view(&self) -> State {
        State { tape: self.stack@, pc: self.pc as int, sp: self.sp as int }
    }
}

impl Default for Interpreter {
    /// A machine at the start of a program, on a tape of one zero cell.
    fn default() -> (m: Interpreter)
        ensures
            m.wf(),
            m@ == (State { tape: seq![0u8], pc: 0, sp: 0 }),
    {
        Interpreter::new()
    }
}

impl Interpreter {
    /// The current cell exists.
    pub open spec fn wf(&self) -> bool {
        0 <= self@.sp < self@.tape.len() && 0 <= self@.pc
    }

    /// A machine at the start of a program, on a tape of one zero cell.
    pub fn new() -> (m: Interpreter)
        ensures
            m.wf(),
            m@ == (State { tape: seq![0u8], pc: 0, sp: 0 }),
    {
        let mut stack: Vec<u8> = Vec::new();
        stack.push(0);
        assert(stack@ =~= seq![0u8]);
        Interpreter { stack, pc: 0, sp: 0 }
    }

    /// The index of the next instruction.
    pub fn pc(&self) -> (r: usize)
        ensures
            r == self@.pc,
    {
        self.pc
    }

    /// The index of the current cell.
    pub fn sp(&self) -> (r: usize)
        ensures
            r == self@.sp,
    {
        self.sp
    }

    /// The tape.
    pub fn tape(&self) -> (r: &Vec<u8>)
        ensures
            r@ == self@.tape,
    {
        &self.stack
    }

    /// The value of the current cell.
    pub fn cell(&self) -> (r: u8)
        requires
            self.wf(),
        ensures
            r == self@.tape[self@.sp],
    {
        self.stack[self.sp]
    }

    /// Puts `byte` into the current cell: the host's answer to
    /// `Event::Input`.
    pub fn store(&mut self, byte: u8)
        requires
            old(self).wf(),
        ensures
            final(self).wf(),
            final(self)@ == (State { tape: old(self)@.tape.update(old(self)@.sp, byte), ..old(self)@ }),
    {
        self.stack.set(self.sp, byte);
    }

    /// Executes the instruction at the program counter.
    #[verifier::rlimit(60)]
    pub fn step(&mut self, code: &Code) -> (e: Event)
        requires
            old(self).wf(),
        ensures
            final(self).wf(),
            (final(self)@, e) == next(code.instrs@, old(self)@, usize::MAX as int),
    {
        let len = code.instrs.len();
        if self.pc >= len {
            return Event::Halted;
        }
        let cell = self.stack[self.sp];
        match code.instrs[self.pc] {
            IR::SHR(x) => {
                if x as usize > usize::MAX - self.sp {
                    return Event::Exhausted;
                }
                let ghost before = self.stack@;
                let ghost start = self@;
                self.sp = self.sp + x as usize;
                while self.stack.len() <= self.sp
                    invariant
                        self.pc == start.pc,
                        self.sp == start.sp + x,
                        before.len() <= self.stack@.len(),
                        self.stack@.len() == before.len() || self.stack@.len() <= self.sp + 1,
                        self.stack@ == grown(before, self.stack@.len() as int),
                    decreases self.sp + 1 - self.stack@.len(),
                {
                    let ghost prev = self.stack@;
                    self.stack.push(0);
                    assert(self.stack@ =~= grown(before, prev.len() as int + 1));
                }
                assert(self.stack@ =~= grown(before, self.sp + 1));
                self.pc = self.pc + 1;
                Event::Advanced
            },
            IR::SHL(x) => {
                self.sp = if self.sp >= x as usize { self.sp - x as usize } else { 0 };
                self.pc = self.pc + 1;
                Event::Advanced
            },
            IR::ADD(x) => {
                self.stack.set(self.sp, add_wrapping(cell, x));
                self.pc = self.pc + 1;
                Event::Advanced
            },
            IR::SUB(x) => {
                self.stack.set(self.sp, sub_wrapping(cell, x));
                self.pc = self.pc + 1;
                Event::Advanced
            },
            IR::PUTCHAR => {
                self.pc = self.pc + 1;
                Event::Output(cell)
            },
            IR::GETCHAR => {
                self.pc = self.pc + 1;
                Event::Input
            },
            IR::JIZ(x) => {
                self.pc = if cell == 0 { land(x, len) } else { self.pc + 1 };
                Event::Advanced
            },
            IR::JNZ(x) => {
                self.pc = if cell != 0 { land(x, len) } else { self.pc + 1 };
                Event::Advanced
            },
        }
    }
    /// Executes the token at the program counter of an unfolded program.
    pub fn step_tokens(&mut self, code: &crate::opcode::Code) -> (e: Event)
        requires
            old(self).wf(),
            code.wf(),
        ensures
            final(self).wf(),
            (final(self)@, e) == next_token(code.instrs@, code.jtable@, old(self)@, usize::MAX as int),
    {
        let len = code.instrs.len();
        if self.pc >= len {
            return Event::Halted;
        }
        let cell = self.stack[self.sp];
        let ghost start = self@;
        match code.instrs[self.pc] {
            Opcode::SHR => {
                if self.sp == usize::MAX {
                    return Event::Exhausted;
                }
                self.sp = self.sp + 1;
                if self.sp == self.stack.len() {
                    self.stack.push(0);
                }
                assert(self.stack@ =~= grown(start.tape, start.sp + 2));
                self.pc = self.pc + 1;
                Event::Advanced
            },
            Opcode::SHL => {
                if self.sp != 0 {
                    self.sp = self.sp - 1;
                }
                self.pc = self.pc + 1;
                Event::Advanced
            },
            Opcode::ADD => {
                self.stack.set(self.sp, add_wrapping(cell, 1));
                self.pc = self.pc + 1;
                Event::Advanced
            },
            Opcode::SUB => {
                self.stack.set(self.sp, sub_wrapping(cell, 1));
                self.pc = self.pc + 1;
                Event::Advanced
            },
            Opcode::PUTCHAR => {
                self.pc = self.pc + 1;
                Event::Output(cell)
            },
            Opcode::GETCHAR => {
                self.pc = self.pc + 1;
                Event::Input
            },
            Opcode::LB => {
                if cell == 0 {
                    self.pc = partner(code, self.pc);
                }
                self.pc = self.pc + 1;
                Event::Advanced
            },
            Opcode::RB => {
                if cell != 0 {
                    self.pc = partner(code, self.pc);
                }
                self.pc = self.pc + 1;
                Event::Advanced
            },
        }
    }
}

/// The jump table's entry for the loop token at `pc`.
pub fn partner(code: &crate::opcode::Code, pc: usize) -> (q: usize)
    requires
        code.wf(),
        pc < code.instrs@.len(),
        code.instrs@[pc as int] == Opcode::LB || code.instrs@[pc as int] == Opcode::RB,
    ensures
        q == code.jtable@[pc],
        q < code.instrs@.len(),
{
    proof {
        assert(code.jtable@.contains_key(pc));
        if code.instrs@[pc as int] == Opcode::LB {
            assert(is_pair(code.instrs@, pc as int, code.jtable@[pc] as int));
        } else {
            assert(is_pair(code.instrs@, code.jtable@[pc] as int, pc as int));
        }
    }
    match code.jtable.get(&pc) {
        Some(q) => *q,
        None => pc,
    }
}

/// Adds two cell values modulo 256.
pub fn add_wrapping(c: u8, x: u8) -> (r: u8)
    ensures
        r == cell_add(c, x),
{
    if x <= 255 - c {
        c + x
    } else {
        x - (255 - c) - 1
    }
}

/// Subtracts one cell value from another modulo 256.
pub fn sub_wrapping(c: u8, x: u8) -> (r: u8)
    ensures
        r == cell_sub(c, x),
{
    if x <= c {
        c - x
    } else {
        255 - (x - c) + 1
    }
}

/// Where a taken jump continues.
pub fn land(x: u32, len: usize) -> (pc: usize)
    ensures
        pc == landing(x, len as int),
{
    if (x as usize) < len {
        x as usize + 1
    } else {
        len
    }
}

/// Two cell updates in a row are one update by the sum of their counts
/// modulo 256, so folding increments or decrements keeps their meaning.
pub proof fn lemma_cell_updates_fold(c: u8, x: u8, y: u8)
    ensures
        cell_add(cell_add(c, x), y) == cell_add(c, ((x + y) % 256) as u8),
        cell_sub(cell_sub(c, x), y) == cell_sub(c, ((x + y) % 256) as u8),
        cell_sub(cell_add(c, x), x) == c,
{
    let s = (x + y) % 256;
    let a = (c + x) % 256;
    let b = (c - x) % 256;
    assert(s == if x + y < 256 { x + y } else { x + y - 256 });
    assert(a == if c + x < 256 { c + x } else { c + x - 256 });
    assert(b == if c - x >= 0 { c - x } else { c - x + 256 });
    assert(cell_add(c, x) == a);
    assert(cell_sub(c, x) == b);
    assert((a + y) % 256 == (c + s) % 256);
    assert((b - y) % 256 == (c - s) % 256);
    assert((a - x) % 256 == c);
}

/// The state after `n` steps of an unfolded program, whatever the steps
/// ask of the host.
pub open spec fn after_tokens(
    code: Seq<Opcode>,
    jt: Map<usize, usize>,
    s: State,
    n: nat,
    limit: int,
) -> State
    decreases n,
{
    if n == 0 {
        s
    } else {
        next_token(code, jt, after_tokens(code, jt, s, (n - 1) as nat, limit), limit).0
    }
}

/// The tape and the pointer after `n` copies of a foldable command, from
/// state `s`.
pub open spec fn after_run(op: Opcode, s: State, n: int) -> State {
    let c = s.tape[s.sp];
    match op {
        Opcode::SHR => State { tape: grown(s.tape, s.sp + n + 1), sp: s.sp + n, ..s },
        Opcode::SHL => State { sp: if s.sp >= n { s.sp - n } else { 0 }, ..s },
        Opcode::ADD => State { tape: s.tape.update(s.sp, cell_add(c, (n % 256) as u8)), ..s },
        _ => State { tape: s.tape.update(s.sp, cell_sub(c, (n % 256) as u8)), ..s },
    }
}

/// One more copy of a cell update after `m` copies.
proof fn lemma_cell_run(c: u8, m: nat)
    ensures
        cell_add(cell_add(c, (m % 256) as u8), 1) == cell_add(c, ((m + 1) % 256) as u8),
        cell_sub(cell_sub(c, (m % 256) as u8), 1) == cell_sub(c, ((m + 1) % 256) as u8),
{
    let r = (m % 256) as u8;
    assert(((m + 1) % 256) as int == (r + 1) % 256);
    lemma_cell_updates_fold(c, r, 1);
}

/// One more copy of a foldable command after a run of `m` copies.
#[verifier::rlimit(60)]
proof fn lemma_run_grows(op: Opcode, s: State, m: nat)
    requires
        foldable(op),
        0 <= s.sp < s.tape.len(),
    ensures
        after_run(op, after_run(op, s, m as int), 1).tape == after_run(op, s, m as int + 1).tape,
        after_run(op, after_run(op, s, m as int), 1).sp == after_run(op, s, m as int + 1).sp,
        after_run(op, s, 0).tape == s.tape,
        after_run(op, s, 0).sp == s.sp,
        0 <= after_run(op, s, m as int).sp < after_run(op, s, m as int).tape.len(),
{
    let c = s.tape[s.sp];
    let x = after_run(op, s, m as int);
    let y = after_run(op, x, 1);
    let z = after_run(op, s, m as int + 1);
    assert(after_run(op, s, 0).tape =~= s.tape);
    match op {
        Opcode::SHR => {
            assert(y.tape =~= z.tape);
        },
        Opcode::SHL => {},
        Opcode::ADD => {
            lemma_cell_run(c, m);
            assert(y.tape =~= z.tape);
        },
        _ => {
            lemma_cell_run(c, m);
            assert(y.tape =~= z.tape);
        },
    }
}

/// `n` steps of the token machine on `n` copies of a foldable command.
#[verifier::rlimit(60)]
proof fn lemma_tokens_run(
    code: Seq<Opcode>,
    jt: Map<usize, usize>,
    s: State,
    op: Opcode,
    n: nat,
    limit: int,
)
    requires
        foldable(op),
        0 <= s.pc,
        s.pc + n <= code.len(),
        forall|k: int| s.pc <= k < s.pc + n ==> code[k] == op,
        0 <= s.sp < s.tape.len(),
        s.sp + n <= limit,
    ensures
        after_tokens(code, jt, s, n, limit).tape == after_run(op, s, n as int).tape,
        after_tokens(code, jt, s, n, limit).sp == after_run(op, s, n as int).sp,
        after_tokens(code, jt, s, n, limit).pc == s.pc + n,
    decreases n,
{
    lemma_run_grows(op, s, 0);
    if n > 0 {
        let m = (n - 1) as nat;
        lemma_tokens_run(code, jt, s, op, m, limit);
        lemma_run_grows(op, s, m);
        let prev = after_tokens(code, jt, s, m, limit);
        let a = next_token(code, jt, prev, limit).0;
        assert(code[prev.pc] == op);
        let x = after_run(op, s, m as int);
        let like = State { pc: prev.pc, ..x };
        assert(prev == like);
        let y = after_run(op, x, 1);
        assert(a.tape =~= y.tape);
        assert(a.sp == y.sp);
    }
}

/// Folding keeps the meaning of a run: one step on the counted instruction
/// for `n` copies of a foldable command leaves the tape and the pointer as
/// `n` steps on the copies themselves do, as long as the pointer stays
/// within `limit`.
pub proof fn lemma_counted_step_is_run(
    code: Seq<Opcode>,
    jt: Map<usize, usize>,
    s: State,
    op: Opcode,
    n: nat,
    limit: int,
)
    requires
        foldable(op),
        1 <= n <= u32::MAX,
        0 <= s.pc,
        s.pc + n <= code.len(),
        forall|k: int| s.pc <= k < s.pc + n ==> code[k] == op,
        0 <= s.sp < s.tape.len(),
        s.sp + n <= limit,
    ensures
        ({
            let a = after_tokens(code, jt, s, n, limit);
            let b = next(seq![counted(op, n as int)], State { pc: 0, ..s }, limit).0;
            &&& a.tape == b.tape
            &&& a.sp == b.sp
            &&& a.pc == s.pc + n
            &&& 0 <= a.sp < a.tape.len()
        }),
{
    let one = seq![counted(op, n as int)];
    assert(one[0] == counted(op, n as int));
    lemma_tokens_run(code, jt, s, op, n, limit);
    lemma_run_grows(op, s, n);
    let b = next(one, State { pc: 0, ..s }, limit).0;
    let x = after_run(op, s, n as int);
    assert(b.tape =~= x.tape);
    assert(b.sp == x.sp);
}

} // verus!
