use crate::ir::{
    count, counted, ends, foldable, folded, is_loop, kind_of, lemma_count_monotone, run, slot,
    starts, IR,
};
use crate::machine::{after_tokens, lemma_counted_step_is_run, next, next_token, Event, State};
use crate::opcode::{
    balanced, is_pair, lemma_close_has_open, lemma_jump_table_bijection, lemma_open_has_close, Code,
    Opcode,
};
use vstd::prelude::*;

verus! {

/// The number of tokens of the instruction that begins at token `k`.
pub open spec fn span(t: Seq<Opcode>, k: int) -> int
    decreases t.len() - k,
{
    if k + 1 >= t.len() || starts(t, k + 1) {
        1
    } else {
        1 + span(t, k + 1)
    }
}

/// The jump table holds each loop's two tokens under each other's index.
pub open spec fn tabulates(jt: Map<usize, usize>, t: Seq<Opcode>) -> bool {
    forall|i: usize, j: usize| #[trigger]
        is_pair(t, i as int, j as int) ==> jt[i] == j && jt[j] == i
}

/// The token machine in state `a` stands at the first token of an
/// instruction, or at the end, and the folded machine in state `b` stands
/// at that instruction, on the same tape with the same pointer.
pub open spec fn mirrors(t: Seq<Opcode>, a: State, b: State) -> bool {
    &&& a.tape == b.tape
    &&& a.sp == b.sp
    &&& 0 <= a.pc <= t.len()
    &&& a.pc == t.len() || starts(t, a.pc)
    &&& b.pc == count(t, a.pc)
}

/// The tokens of the instruction that begins at `k` are copies of one
/// command; they make one instruction, whose run is its span.
pub proof fn lemma_span(t: Seq<Opcode>, k: int)
    requires
        0 <= k < t.len(),
        starts(t, k),
    ensures
        1 <= span(t, k) <= t.len() - k,
        forall|x: int| k <= x < k + span(t, k) ==> t[x] == t[k],
        span(t, k) > 1 ==> foldable(t[k]),
        ends(t, k + span(t, k) - 1, t.len() as int),
        run(t, k + span(t, k) - 1) == span(t, k),
        count(t, k + span(t, k)) == count(t, k) + 1,
        slot(t, k + span(t, k) - 1) == count(t, k),
{
    lemma_span_from(t, k, k);
}

/// The part of `lemma_span` that is known at token `m` of the instruction
/// that begins at `k`.
proof fn lemma_span_from(t: Seq<Opcode>, k: int, m: int)
    requires
        0 <= k <= m < t.len(),
        starts(t, k),
        forall|x: int| k < x <= m ==> !starts(t, x),
        forall|x: int| k <= x <= m ==> t[x] == t[k],
        run(t, m) == m - k + 1,
        count(t, m + 1) == count(t, k) + 1,
    ensures
        1 <= span(t, m) <= t.len() - m,
        forall|x: int| k <= x < m + span(t, m) ==> t[x] == t[k],
        span(t, m) > 1 ==> foldable(t[k]),
        ends(t, m + span(t, m) - 1, t.len() as int),
        run(t, m + span(t, m) - 1) == span(t, m) + m - k,
        count(t, m + span(t, m)) == count(t, k) + 1,
    decreases t.len() - m,
{
    if m + 1 < t.len() && !starts(t, m + 1) {
        lemma_span_from(t, k, m + 1);
    }
}

/// Folding keeps the meaning of a program: from mirroring states, one step
/// of the folded machine leaves the machines mirroring each other again
/// after the token machine has stepped through the tokens of that
/// instruction, and asks of the host what the token machine asks.
#[verifier::rlimit(60)]
pub proof fn lemma_step_mirrors(
    t: Seq<Opcode>,
    jt: Map<usize, usize>,
    instrs: Seq<IR>,
    a: State,
    b: State,
    limit: int,
)
    requires
        balanced(t),
        t.len() <= u32::MAX,
        folded(instrs, t, t.len() as int),
        tabulates(jt, t),
        mirrors(t, a, b),
        a.pc < t.len(),
        0 <= a.sp < a.tape.len(),
        a.sp + span(t, a.pc) <= limit,
    ensures
        ({
            let n = span(t, a.pc);
            let a2 = after_tokens(t, jt, a, n as nat, limit);
            let (b2, e) = next(instrs, b, limit);
            &&& mirrors(t, a2, b2)
            &&& 0 <= a2.sp < a2.tape.len()
            &&& n == 1 ==> e == next_token(t, jt, a, limit).1
            &&& n > 1 ==> e == Event::Advanced
        }),
{
    let k = a.pc;
    let len = t.len() as int;
    let op = t[k];
    lemma_span(t, k);
    let n = span(t, k);
    let last = k + n - 1;
    let p = count(t, k);
    lemma_count_monotone(t, k + n, len);
    lemma_count_monotone(t, 0, k);
    assert(0 <= p < instrs.len());
    assert(kind_of(instrs[slot(t, last)]) == t[last]);
    let a2 = after_tokens(t, jt, a, n as nat, limit);
    let b2 = next(instrs, b, limit).0;
    if foldable(op) {
        assert(ends(t, last, len) && !is_loop(t[last]));
        assert(instrs[p] == counted(op, n));
        lemma_counted_step_is_run(t, jt, a, op, n as nat, limit);
        let one = seq![counted(op, n)];
        assert(one[0] == counted(op, n));
        let c = next(one, State { pc: 0, ..a }, limit).0;
        assert(b2.tape == c.tape && b2.sp == c.sp && b2.pc == p + 1);
        if n == 1 {
            assert(after_tokens(t, jt, a, 0, limit) == a);
        }
    } else {
        assert(n == 1);
        assert(after_tokens(t, jt, a, 0, limit) == a);
        assert(a2 == next_token(t, jt, a, limit).0);
        assert(k as usize == k);
        if op == Opcode::LB {
            let j = lemma_open_has_close(t, k);
            assert(is_pair(t, k, j));
            lemma_count_monotone(t, j + 1, len);
            lemma_count_monotone(t, 1, j + 1);
            assert(instrs[p] == IR::JIZ(slot(t, j) as u32));
            assert(is_pair(t, (k as usize) as int, (j as usize) as int));
            assert(jt[k as usize] == j);
        } else if op == Opcode::RB {
            let i = lemma_close_has_open(t, k);
            assert(is_pair(t, i, k));
            lemma_count_monotone(t, i + 1, len);
            lemma_count_monotone(t, 1, i + 1);
            assert(instrs[p] == IR::JNZ(slot(t, i) as u32));
            assert(is_pair(t, (i as usize) as int, (k as usize) as int));
            assert(jt[k as usize] == i);
        } else {
            assert(ends(t, last, len) && !is_loop(t[last]));
            assert(instrs[p] == counted(op, 1));
        }
    }
}

/// The jump table of a well-formed program holds each loop's two tokens
/// under each other's index.
pub proof fn lemma_table_tabulates(c: Code)
    requires
        c.wf(),
    ensures
        tabulates(c.jtable@, c.instrs@),
{
    let t = c.instrs@;
    let m = c.jtable@;
    lemma_jump_table_bijection(c);
    assert forall|i: usize, j: usize| #[trigger] is_pair(t, i as int, j as int) implies m[i] == j
        && m[j] == i by {
        assert(m.contains_key(i));
        assert(m[i] == j);
        assert(m[m[i]] == i);
    }
}

} // verus!
