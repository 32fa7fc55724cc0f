use crate::error::Error;
use crate::opcode::{
    balanced, depth, is_command, is_pair, lemma_close_has_open, lemma_open_has_close,
    lemma_pair_unique, pending_at, tokenize, tokens, Opcode,
};
use vstd::prelude::*;

verus! {

/// A folded instruction: a run of identical pointer moves or cell updates
/// as one counted instruction, and loop tokens as jumps whose target is
/// the index of the partner instruction.
#[derive(Debug, Clone, Copy, PartialEq, Eq, Structural)]
pub enum IR {
    /// Move the tape pointer right by the count.
    SHR(u32),
    /// Move the tape pointer left by the count.
    SHL(u32),
    /// Add the count to the current cell, modulo 256.
    ADD(u8),
    /// Subtract the count from the current cell, modulo 256.
    SUB(u8),
    /// Output the current cell.
    PUTCHAR,
    /// Read one byte into the current cell.
    GETCHAR,
    /// If the current cell is zero, continue after the instruction at the
    /// target, which is the loop's `JNZ`.
    JIZ(u32),
    /// If the current cell is not zero, continue after the instruction at
    /// the target, which is the loop's `JIZ`.
    JNZ(u32),
}

/// The command that an instruction was folded from.
pub open spec fn kind_of(ir: IR) -> Opcode {
    match ir {
        IR::SHR(_) => Opcode::SHR,
        IR::SHL(_) => Opcode::SHL,
        IR::ADD(_) => Opcode::ADD,
        IR::SUB(_) => Opcode::SUB,
        IR::PUTCHAR => Opcode::PUTCHAR,
        IR::GETCHAR => Opcode::GETCHAR,
        IR::JIZ(_) => Opcode::LB,
        IR::JNZ(_) => Opcode::RB,
    }
}

/// Whether repetitions of a command are merged into one instruction.
pub open spec fn foldable(op: Opcode) -> bool {
    op == Opcode::SHR || op == Opcode::SHL || op == Opcode::ADD || op == Opcode::SUB
}

/// Whether a command is a loop token.
pub open spec fn is_loop(op: Opcode) -> bool {
    op == Opcode::LB || op == Opcode::RB
}

/// Token `k` begins a new instruction: it is the first token, it is not
/// foldable, or it differs from the token before it.
pub open spec fn starts(t: Seq<Opcode>, k: int) -> bool {
    k <= 0 || !foldable(t[k]) || t[k - 1] != t[k]
}

/// The number of instructions that the first `n` tokens fold into.
pub open spec fn count(t: Seq<Opcode>, n: int) -> int
    decreases n,
{
    if n <= 0 {
        0
    } else {
        count(t, n - 1) + if starts(t, n - 1) {
            1int
        } else {
            0int
        }
    }
}

/// The index of the instruction that token `k` is folded into.
pub open spec fn slot(t: Seq<Opcode>, k: int) -> int {
    count(t, k + 1) - 1
}

/// The number of tokens of `k`'s instruction up to and including `k`.
pub open spec fn run(t: Seq<Opcode>, k: int) -> int
    decreases k,
{
    if k <= 0 || starts(t, k) {
        1
    } else {
        run(t, k - 1) + 1
    }
}

/// Among the first `n` tokens, token `k` is the last of its instruction.
pub open spec fn ends(t: Seq<Opcode>, k: int, n: int) -> bool {
    0 <= k < n && (k + 1 == n || starts(t, k + 1))
}

/// The instruction for a run of `n` copies of a command that is not a
/// loop token: shift counts are exact, cell counts are taken modulo 256.
pub open spec fn counted(op: Opcode, n: int) -> IR {
    match op {
        Opcode::SHR => IR::SHR(n as u32),
        Opcode::SHL => IR::SHL(n as u32),
        Opcode::ADD => IR::ADD((n % 256) as u8),
        Opcode::SUB => IR::SUB((n % 256) as u8),
        Opcode::PUTCHAR => IR::PUTCHAR,
        _ => IR::GETCHAR,
    }
}

/// `instrs` is what the first `n` tokens of `t` fold into, as far as the
/// loops closed among them are concerned: one instruction per run, in
/// order, each of its run's kind and length, and each closed loop's two
/// jumps pointing at each other.
pub open spec fn folded(instrs: Seq<IR>, t: Seq<Opcode>, n: int) -> bool {
    &&& instrs.len() == count(t, n)
    &&& forall|k: int| 0 <= k < n ==> kind_of(#[trigger] instrs[slot(t, k)]) == t[k]
    &&& forall|k: int| #[trigger]
        ends(t, k, n) && !is_loop(t[k]) ==> instrs[slot(t, k)] == counted(t[k], run(t, k))
    &&& forall|i: int, j: int| #[trigger]
        is_pair(t, i, j) && j < n ==> {
            &&& instrs[slot(t, i)] == IR::JIZ(slot(t, j) as u32)
            &&& instrs[slot(t, j)] == IR::JNZ(slot(t, i) as u32)
        }
}

/// Every jump target is an instruction of the program, and the two jumps
/// of a loop point at each other: the `JIZ` forward at its `JNZ`, the `JNZ`
/// back at its `JIZ`.
pub open spec fn linked(instrs: Seq<IR>) -> bool {
    forall|p: int|
        0 <= p < instrs.len() ==> match #[trigger] instrs[p] {
            IR::JIZ(q) => p < q < instrs.len() && instrs[q as int] == IR::JNZ(p as u32),
            IR::JNZ(q) => q < p && instrs[q as int] == IR::JIZ(p as u32),
            _ => true,
        }
}

/// `count` grows with the prefix, by at most one per token.
pub proof fn lemma_count_monotone(t: Seq<Opcode>, a: int, b: int)
    requires
        0 <= a <= b,
    ensures
        0 <= count(t, a) <= count(t, b) <= count(t, a) + (b - a),
        a >= 1 ==> count(t, a) >= 1,
    decreases b,
{
    if a < b {
        lemma_count_monotone(t, a, b - 1);
    } else if a >= 1 {
        lemma_count_monotone(t, a - 1, a - 1);
        if a >= 2 {
            lemma_count_monotone(t, 1, a - 1);
        }
    }
}

/// A run is never longer than the tokens read so far.
pub proof fn lemma_run_bounds(t: Seq<Opcode>, k: int)
    requires
        0 <= k,
    ensures
        1 <= run(t, k) <= k + 1,
    decreases k,
{
    if k > 0 && !starts(t, k) {
        lemma_run_bounds(t, k - 1);
    }
}

/// Every token has an instruction among those of the tokens up to it, and
/// two tokens with an instruction boundary between them have different
/// instructions, in the order of the tokens.
pub proof fn lemma_slot_order(t: Seq<Opcode>, a: int, b: int)
    requires
        0 <= a < b,
    ensures
        0 <= slot(t, a) <= slot(t, b) < count(t, b + 1),
        starts(t, b) || starts(t, a + 1) ==> slot(t, a) < slot(t, b),
{
    lemma_count_monotone(t, a + 1, b);
    lemma_count_monotone(t, a + 1, b + 1);
    lemma_count_monotone(t, 1, a + 1);
    if starts(t, a + 1) && a + 2 <= b + 1 {
        lemma_count_monotone(t, a + 2, b + 1);
    }
}

impl IR {
    /// The command that this instruction was folded from.
    pub fn kind(&self) -> (op: Opcode)
        ensures
            op == kind_of(*self),
    {
        match self {
            IR::SHR(_) => Opcode::SHR,
            IR::SHL(_) => Opcode::SHL,
            IR::ADD(_) => Opcode::ADD,
            IR::SUB(_) => Opcode::SUB,
            IR::PUTCHAR => Opcode::PUTCHAR,
            IR::GETCHAR => Opcode::GETCHAR,
            IR::JIZ(_) => Opcode::LB,
            IR::JNZ(_) => Opcode::RB,
        }
    }
}

/// A folded program.
#[derive(Debug)]
pub struct Code {
    pub instrs: Vec<IR>,
}

impl Code {
    /// The instructions are the folding of the whole of `t`.
    pub open spec fn folds(&self, t: Seq<Opcode>) -> bool {
        folded(self.instrs@, t, t.len() as int)
    }

    /// The jumps of the program are linked.
    pub open spec fn wf(&self) -> bool {
        linked(self.instrs@)
    }

    /// Folds a token sequence and resolves its loops.
    ///
    /// Succeeds exactly when the loop tokens are balanced; the result is
    /// then the folding of the tokens, with its jumps linked. Instruction
    /// indices and shift counts are 32 bits wide, which bounds the number
    /// of tokens.
    #[verifier::rlimit(60)]
    pub fn from(data: Vec<Opcode>) -> (r: Result<Code, Error>)
        requires
            data@.len() <= u32::MAX,
        ensures
            r is Ok <==> balanced(data@),
            r matches Ok(c) ==> c.folds(data@) && c.wf(),
            r matches Err(e) ==> e == Error::UnbalancedLoop,
    {
        let ghost t = data@;
        let mut instrs: Vec<IR> = Vec::new();
        let mut jstack: Vec<usize> = Vec::new();
        let ghost mut pos: Seq<int> = Seq::empty();
        let mut i: usize = 0;
        while i < data.len()
            invariant
                0 <= i <= data.len(),
                t == data@,
                t.len() <= u32::MAX,
                forall|k: int| 0 <= k <= i ==> depth(t, k) >= 0,
                jstack@.len() == depth(t, i as int),
                pos.len() == jstack@.len(),
                forall|s: int|
                    0 <= s < pos.len() ==> pending_at(t, #[trigger] pos[s], s, i as int)
                        && jstack@[s] == slot(t, pos[s]),
                folded(instrs@, t, i as int),
            decreases data.len() - i,
        {
            let op = data[i];
            let n = instrs.len();
            let ghost before = instrs@;
            let ghost old_pos = pos;
            proof {
                lemma_count_monotone(t, i as int, i as int);
                lemma_count_monotone(t, i as int, t.len() as int);
                lemma_count_monotone(t, 0, i as int);
                if i > 0 {
                    lemma_run_bounds(t, i - 1);
                    assert(ends(t, i - 1, i as int));
                    assert(kind_of(before[slot(t, i - 1)]) == t[i - 1]);
                }
            }
            let merge = n > 0 && instrs[n - 1].kind() == op && (op == Opcode::SHR || op
                == Opcode::SHL || op == Opcode::ADD || op == Opcode::SUB);
            assert(merge == !starts(t, i as int));
            if merge {
                let next = match instrs[n - 1] {
                    IR::SHR(x) => IR::SHR(x + 1),
                    IR::SHL(x) => IR::SHL(x + 1),
                    IR::ADD(x) => IR::ADD(if x == 255 { 0 } else { x + 1 }),
                    IR::SUB(x) => IR::SUB(if x == 255 { 0 } else { x + 1 }),
                    other => other,
                };
                instrs.set(n - 1, next);
                proof {
                    assert(next == counted(op, run(t, i as int)));
                }
            } else {
                match op {
                    Opcode::SHR => instrs.push(IR::SHR(1)),
                    Opcode::SHL => instrs.push(IR::SHL(1)),
                    Opcode::ADD => instrs.push(IR::ADD(1)),
                    Opcode::SUB => instrs.push(IR::SUB(1)),
                    Opcode::PUTCHAR => instrs.push(IR::PUTCHAR),
                    Opcode::GETCHAR => instrs.push(IR::GETCHAR),
                    Opcode::LB => {
                        instrs.push(IR::JIZ(0));
                        jstack.push(n);
                        proof {
                            pos = pos.push(i as int);
                        }
                    },
                    Opcode::RB => {
                        match jstack.pop() {
                            None => {
                                proof {
                                    assert(depth(t, i + 1) < 0);
                                    assert(!balanced(t));
                                }
                                return Err(Error::UnbalancedLoop);
                            },
                            Some(j) => {
                                proof {
                                    let p = pos[pos.len() - 1];
                                    assert(pending_at(t, p, pos.len() - 1, i as int));
                                    assert(is_pair(t, p, i as int));
                                    lemma_slot_order(t, p, i as int);
                                    pos = pos.drop_last();
                                }
                                instrs.push(IR::JNZ(j as u32));
                                instrs.set(j, IR::JIZ(n as u32));
                            },
                        }
                    },
                }
            }
            proof {
                let after = instrs@;
                let m = i as int;
                assert(depth(t, m + 1) == depth(t, m) + crate::opcode::delta(t[m]));
                assert(slot(t, m) == after.len() - 1);
                assert forall|s: int| 0 <= s < pos.len() implies pending_at(
                    t,
                    #[trigger] pos[s],
                    s,
                    m + 1,
                ) && jstack@[s] == slot(t, pos[s]) by {
                    if s < old_pos.len() {
                        assert(pending_at(t, old_pos[s], s, m));
                    }
                }
                assert forall|k: int| 0 <= k < m + 1 implies kind_of(
                    #[trigger] after[slot(t, k)],
                ) == t[k] by {
                    if k < m {
                        lemma_slot_order(t, k, m);
                        lemma_count_monotone(t, k + 1, m);
                        assert(kind_of(before[slot(t, k)]) == t[k]);
                    }
                }
                assert forall|k: int| #[trigger]
                    ends(t, k, m + 1) && !is_loop(t[k]) implies after[slot(t, k)] == counted(
                    t[k],
                    run(t, k),
                ) by {
                    if k < m {
                        assert(ends(t, k, m));
                        lemma_slot_order(t, k, m);
                        lemma_count_monotone(t, k + 1, m);
                        if op == Opcode::RB {
                            let p = old_pos[old_pos.len() - 1];
                            assert(pending_at(t, p, old_pos.len() - 1, m));
                            if k < p {
                                lemma_slot_order(t, k, p);
                            } else {
                                lemma_slot_order(t, p, k);
                            }
                        }
                    }
                }
                assert forall|a: int, b: int| #[trigger]
                    is_pair(t, a, b) && b < m + 1 implies {
                    &&& after[slot(t, a)] == IR::JIZ(slot(t, b) as u32)
                    &&& after[slot(t, b)] == IR::JNZ(slot(t, a) as u32)
                } by {
                    lemma_slot_order(t, a, b);
                    if b < m {
                        lemma_slot_order(t, b, m);
                        lemma_slot_order(t, a, m);
                        lemma_count_monotone(t, b + 1, m);
                        if op == Opcode::RB {
                            let p = old_pos[old_pos.len() - 1];
                            assert(pending_at(t, p, old_pos.len() - 1, m));
                            assert(is_pair(t, p, m));
                            lemma_pair_unique(t, a, b, p, m);
                            if a < p {
                                lemma_slot_order(t, a, p);
                            } else {
                                lemma_slot_order(t, p, a);
                            }
                            if b < p {
                                lemma_slot_order(t, b, p);
                            } else {
                                lemma_slot_order(t, p, b);
                            }
                        }
                    } else {
                        let p = old_pos[old_pos.len() - 1];
                        assert(pending_at(t, p, old_pos.len() - 1, m));
                        assert(is_pair(t, p, m));
                        lemma_pair_unique(t, a, b, p, m);
                    }
                }
            }
            i += 1;
        }
        if jstack.len() != 0 {
            return Err(Error::UnbalancedLoop);
        }
        proof {
            lemma_folded_is_linked(instrs@, t);
        }
        Ok(Code { instrs })
    }
}

/// In a sequence of copies of one foldable command, every prefix folds
/// into a single instruction whose run is the whole prefix.
pub proof fn lemma_uniform_run(t: Seq<Opcode>, op: Opcode, n: int)
    requires
        foldable(op),
        1 <= n <= t.len(),
        forall|k: int| 0 <= k < t.len() ==> t[k] == op,
    ensures
        count(t, n) == 1,
        run(t, n - 1) == n,
    decreases n,
{
    if n > 1 {
        lemma_uniform_run(t, op, n - 1);
    } else {
        assert(count(t, 0) == 0);
    }
}

/// Folding `n` adjacent copies of one foldable command yields exactly one
/// counted instruction, with count `n`.
pub proof fn lemma_fold_uniform(instrs: Seq<IR>, t: Seq<Opcode>, op: Opcode)
    requires
        foldable(op),
        t.len() >= 1,
        forall|k: int| 0 <= k < t.len() ==> t[k] == op,
        folded(instrs, t, t.len() as int),
    ensures
        instrs == seq![counted(op, t.len() as int)],
{
    let n = t.len() as int;
    lemma_uniform_run(t, op, n);
    assert(ends(t, n - 1, n));
    assert(instrs =~= seq![counted(op, n)]);
}

/// Folding never merges across a kind boundary and never reorders: two
/// tokens of different kinds are folded into different instructions, the
/// earlier token into the earlier instruction.
pub proof fn lemma_no_merge_across_kinds(t: Seq<Opcode>, a: int, b: int)
    requires
        0 <= a < b < t.len(),
        t[a] != t[b],
    ensures
        slot(t, a) < slot(t, b),
    decreases b,
{
    if t[b - 1] != t[b] {
        lemma_slot_order(t, a, b);
    } else {
        lemma_no_merge_across_kinds(t, a, b - 1);
        lemma_slot_order(t, b - 1, b);
    }
}

/// The count of a cell update wraps at 256: a run of `n + 256` increments
/// or decrements folds into the same instruction as a run of `n`.
pub proof fn lemma_cell_count_wraps(op: Opcode, n: int)
    requires
        op == Opcode::ADD || op == Opcode::SUB,
        n >= 0,
    ensures
        counted(op, n + 256) == counted(op, n),
        counted(Opcode::ADD, n) == IR::ADD((n % 256) as u8),
        counted(Opcode::SUB, n) == IR::SUB((n % 256) as u8),
        counted(op, 256) == counted(op, 0),
{
    assert((n + 256) % 256 == n % 256) by (nonlinear_arith)
        requires
            n >= 0,
    ;
}

/// Compiles a source text to its folded form: tokenizes it, folds runs and
/// resolves loops.
///
/// Succeeds exactly when the loop tokens of the source are balanced.
/// Instruction indices are 32 bits wide, which bounds the source's length.
pub fn compile(data: Vec<u8>) -> (r: Result<Code, Error>)
    requires
        data@.len() <= u32::MAX,
    ensures
        r is Ok <==> balanced(tokenize(data@)),
        r matches Ok(c) ==> c.folds(tokenize(data@)) && c.wf(),
        r matches Err(e) ==> e == Error::UnbalancedLoop,
{
    proof {
        data@.lemma_filter_len(|b: u8| is_command(b));
    }
    let instrs = tokens(&data);
    Code::from(instrs)
}

/// Every instruction is the instruction of a token that ends its run.
pub proof fn lemma_slot_onto(t: Seq<Opcode>, n: int, idx: int) -> (k: int)
    requires
        0 <= idx < count(t, n),
    ensures
        ends(t, k, n),
        slot(t, k) == idx,
    decreases n,
{
    if idx == count(t, n) - 1 {
        n - 1
    } else {
        lemma_slot_onto(t, n - 1, idx)
    }
}

/// A balanced token sequence has one folded form only: compiling the same
/// tokens twice gives the same instructions.
pub proof fn lemma_folding_is_unique(a: Seq<IR>, b: Seq<IR>, t: Seq<Opcode>)
    requires
        balanced(t),
        folded(a, t, t.len() as int),
        folded(b, t, t.len() as int),
    ensures
        a == b,
{
    let n = t.len() as int;
    assert forall|idx: int| 0 <= idx < a.len() implies a[idx] == b[idx] by {
        let k = lemma_slot_onto(t, n, idx);
        if t[k] == Opcode::LB {
            let j = lemma_open_has_close(t, k);
            assert(is_pair(t, k, j));
        } else if t[k] == Opcode::RB {
            let i = lemma_close_has_open(t, k);
            assert(is_pair(t, i, k));
        } else {
            assert(ends(t, k, n) && !is_loop(t[k]));
        }
    }
    assert(a =~= b);
}

/// The folded form of a balanced token sequence is linked: every jump
/// target is an instruction of the program, and the jumps of a loop point
/// at each other.
pub proof fn lemma_folded_is_linked(instrs: Seq<IR>, t: Seq<Opcode>)
    requires
        balanced(t),
        t.len() <= u32::MAX,
        folded(instrs, t, t.len() as int),
    ensures
        linked(instrs),
{
    let n = t.len() as int;
    lemma_count_monotone(t, 0, n);
    assert forall|p: int| 0 <= p < instrs.len() implies match #[trigger] instrs[p] {
        IR::JIZ(q) => p < q < instrs.len() && instrs[q as int] == IR::JNZ(p as u32),
        IR::JNZ(q) => q < p && instrs[q as int] == IR::JIZ(p as u32),
        _ => true,
    } by {
        let k = lemma_slot_onto(t, n, p);
        assert(kind_of(instrs[slot(t, k)]) == t[k]);
        if t[k] == Opcode::LB {
            let j = lemma_open_has_close(t, k);
            assert(is_pair(t, k, j));
            lemma_slot_order(t, k, j);
            lemma_count_monotone(t, j + 1, n);
        } else if t[k] == Opcode::RB {
            let i = lemma_close_has_open(t, k);
            assert(is_pair(t, i, k));
            lemma_slot_order(t, i, k);
            lemma_count_monotone(t, k + 1, n);
        }
    }
}

} // verus!
