use crate::error::Error;
use crate::ir::{
    compile, count, folded, is_loop, kind_of, lemma_count_monotone, lemma_slot_onto, lemma_slot_order,
    slot, starts, Code, IR,
};
use crate::opcode::{
    balanced, delta, depth, is_pair, lemma_close_has_open, lemma_pair_unique, pending_at, tokenize,
    Opcode,
};
use vstd::prelude::*;

verus! {

/// One unit of native code to emit. A loop is named by the index of the
/// instruction that opens it; the backend gives each loop two label sites,
/// one at the top of its body and one behind its end.
#[derive(Debug, Clone, Copy, PartialEq, Eq, Structural)]
pub enum Emit {
    /// Add the count to the tape-pointer register.
    Right(u32),
    /// Subtract the count from the tape-pointer register.
    Left(u32),
    /// Add the count to the byte at the tape pointer.
    Add(u8),
    /// Subtract the count from the byte at the tape pointer.
    Sub(u8),
    /// Call the host's output routine with the byte at the tape pointer.
    Output,
    /// Call the host's input routine and store its byte at the tape pointer.
    Input,
    /// Branch to the loop's end label if the byte is zero, then bind the
    /// loop's top label.
    Open(usize),
    /// Branch to the loop's top label if the byte is not zero, then bind
    /// the loop's end label.
    Close(usize),
}

/// The commands that a folded program's instructions stand for.
pub open spec fn kinds(instrs: Seq<IR>) -> Seq<Opcode> {
    instrs.map_values(|ir: IR| kind_of(ir))
}

/// What is emitted for an instruction that is not a jump.
pub open spec fn lowered(ir: IR) -> Emit {
    match ir {
        IR::SHR(x) => Emit::Right(x),
        IR::SHL(x) => Emit::Left(x),
        IR::ADD(x) => Emit::Add(x),
        IR::SUB(x) => Emit::Sub(x),
        IR::PUTCHAR => Emit::Output,
        _ => Emit::Input,
    }
}

/// `plan` is the emission plan of the first `n` instructions: one unit per
/// instruction, each loop-open under its own index, and each loop-close
/// under the index of the loop-open that it ends.
pub open spec fn planned(plan: Seq<Emit>, instrs: Seq<IR>, n: int) -> bool {
    &&& plan.len() == n
    &&& forall|k: int|
        0 <= k < n && !is_loop(kind_of(instrs[k])) ==> #[trigger] plan[k] == lowered(instrs[k])
    &&& forall|k: int|
        0 <= k < n && kind_of(instrs[k]) == Opcode::LB ==> #[trigger] plan[k] == Emit::Open(
            k as usize,
        )
    &&& forall|a: int, b: int| #[trigger]
        is_pair(kinds(instrs), a, b) && b < n ==> plan[b] == Emit::Close(a as usize)
}

/// Lays out the native code for a folded program, before any of it is
/// emitted.
///
/// Loops are paired last-opened-first-closed, by the order of the jumps
/// alone. Succeeds exactly when the jumps are balanced.
#[verifier::rlimit(60)]
pub fn plan(code: &Code) -> (r: Result<Vec<Emit>, Error>)
    ensures
        r is Ok <==> balanced(kinds(code.instrs@)),
        r matches Ok(p) ==> planned(p@, code.instrs@, code.instrs@.len() as int),
        r matches Err(e) ==> e == Error::UnbalancedLoop,
{
    let ghost t = kinds(code.instrs@);
    let mut out: Vec<Emit> = Vec::new();
    let mut loops: Vec<usize> = Vec::new();
    let mut i: usize = 0;
    while i < code.instrs.len()
        invariant
            0 <= i <= code.instrs.len(),
            t == kinds(code.instrs@),
            t.len() == code.instrs@.len(),
            forall|k: int| 0 <= k <= i ==> depth(t, k) >= 0,
            loops@.len() == depth(t, i as int),
            forall|s: int|
                0 <= s < loops@.len() ==> pending_at(t, #[trigger] loops@[s] as int, s, i as int),
            planned(out@, code.instrs@, i as int),
        decreases code.instrs.len() - i,
    {
        let ghost old_loops = loops@;
        let ghost old_out = out@;
        assert(t[i as int] == kind_of(code.instrs@[i as int]));
        match code.instrs[i] {
            IR::SHR(x) => out.push(Emit::Right(x)),
            IR::SHL(x) => out.push(Emit::Left(x)),
            IR::ADD(x) => out.push(Emit::Add(x)),
            IR::SUB(x) => out.push(Emit::Sub(x)),
            IR::PUTCHAR => out.push(Emit::Output),
            IR::GETCHAR => out.push(Emit::Input),
            IR::JIZ(_) => {
                loops.push(i);
                out.push(Emit::Open(i));
            },
            IR::JNZ(_) => {
                match loops.pop() {
                    None => {
                        proof {
                            assert(depth(t, i + 1) < 0);
                            assert(!balanced(t));
                        }
                        return Err(Error::UnbalancedLoop);
                    },
                    Some(top) => {
                        out.push(Emit::Close(top));
                    },
                }
            },
        }
        proof {
            let m = i as int;
            assert(depth(t, m + 1) == depth(t, m) + delta(t[m]));
            assert forall|s: int| 0 <= s < loops@.len() implies pending_at(
                t,
                #[trigger] loops@[s] as int,
                s,
                m + 1,
            ) by {
                if s < old_loops.len() {
                    assert(pending_at(t, old_loops[s] as int, s, m));
                }
            }
            assert forall|k: int|
                0 <= k < m + 1 && !is_loop(kind_of(code.instrs@[k])) implies #[trigger] out@[k]
                == lowered(code.instrs@[k]) by {
                if k < m {
                    assert(old_out[k] == lowered(code.instrs@[k]));
                }
            }
            assert forall|k: int|
                0 <= k < m + 1 && kind_of(code.instrs@[k]) == Opcode::LB implies #[trigger] out@[k]
                == Emit::Open(k as usize) by {
                if k < m {
                    assert(old_out[k] == Emit::Open(k as usize));
                }
            }
            assert forall|a: int, b: int| #[trigger]
                is_pair(t, a, b) && b < m + 1 implies out@[b] == Emit::Close(a as usize) by {
                if b < m {
                    assert(old_out[b] == Emit::Close(a as usize));
                } else {
                    let p = old_loops[old_loops.len() - 1] as int;
                    assert(pending_at(t, p, old_loops.len() - 1, m));
                    assert(is_pair(t, p, m));
                    lemma_pair_unique(t, a, b, p, m);
                }
            }
        }
        i += 1;
    }
    if loops.len() != 0 {
        return Err(Error::UnbalancedLoop);
    }
    Ok(out)
}

/// What is emitted for the instruction at index `k`, going by its own
/// jump target.
pub open spec fn unit_of(k: int, ir: IR) -> Emit {
    match ir {
        IR::JIZ(_) => Emit::Open(k as usize),
        IR::JNZ(q) => Emit::Close(q as usize),
        other => lowered(other),
    }
}

/// `plan` names every loop as the program's jump targets do.
pub open spec fn faithful(plan: Seq<Emit>, instrs: Seq<IR>) -> bool {
    &&& plan.len() == instrs.len()
    &&& forall|k: int| 0 <= k < plan.len() ==> #[trigger] plan[k] == unit_of(k, instrs[k])
}

/// The nesting after the instructions of the first `n` tokens is the
/// nesting after those tokens.
pub proof fn lemma_depth_tracks(instrs: Seq<IR>, t: Seq<Opcode>, n: int)
    requires
        folded(instrs, t, t.len() as int),
        0 <= n <= t.len(),
    ensures
        depth(kinds(instrs), count(t, n)) == depth(t, n),
    decreases n,
{
    if n > 0 {
        lemma_depth_tracks(instrs, t, n - 1);
        lemma_count_monotone(t, n, t.len() as int);
        lemma_count_monotone(t, 0, n - 1);
        if starts(t, n - 1) {
            assert(kind_of(instrs[slot(t, n - 1)]) == t[n - 1]);
            assert(kinds(instrs)[slot(t, n - 1)] == t[n - 1]);
        }
    }
}

/// Folding keeps the loops balanced: the jumps of the folded form of a
/// balanced token sequence are balanced, so its plan exists.
pub proof fn lemma_folded_keeps_balance(instrs: Seq<IR>, t: Seq<Opcode>)
    requires
        balanced(t),
        folded(instrs, t, t.len() as int),
    ensures
        balanced(kinds(instrs)),
{
    let n = t.len() as int;
    let ks = kinds(instrs);
    lemma_depth_tracks(instrs, t, n);
    assert forall|x: int| 0 <= x <= ks.len() implies depth(ks, x) >= 0 by {
        if x > 0 {
            let k = lemma_slot_onto(t, n, x - 1);
            lemma_depth_tracks(instrs, t, k + 1);
        }
    }
}

/// Folding keeps the pairing: the instructions of a loop-open and of the
/// loop-close that ends it are a loop's two jumps.
#[verifier::rlimit(60)]
pub proof fn lemma_folded_keeps_pairs(instrs: Seq<IR>, t: Seq<Opcode>, i: int, j: int)
    requires
        folded(instrs, t, t.len() as int),
        is_pair(t, i, j),
    ensures
        is_pair(kinds(instrs), slot(t, i), slot(t, j)),
{
    let n = t.len() as int;
    let ks = kinds(instrs);
    lemma_slot_order(t, i, j);
    lemma_count_monotone(t, j + 1, n);
    lemma_count_monotone(t, i, i);
    assert(kind_of(instrs[slot(t, i)]) == t[i]);
    assert(kind_of(instrs[slot(t, j)]) == t[j]);
    lemma_depth_tracks(instrs, t, i);
    lemma_depth_tracks(instrs, t, j + 1);
    assert(slot(t, i) == count(t, i));
    assert(slot(t, j) == count(t, j));
    let base = depth(ks, slot(t, i));
    assert forall|x: int| slot(t, i) < x <= slot(t, j) implies #[trigger] depth(ks, x) > base by {
        let k = lemma_slot_onto(t, n, x - 1);
        if k + 1 <= i {
            lemma_count_monotone(t, k + 1, i);
        }
        if k >= j {
            lemma_count_monotone(t, j + 1, k + 1);
        }
        lemma_depth_tracks(instrs, t, k + 1);
    }
}

/// The plan of a compiled program follows the program's jump targets: the
/// loop that a `JNZ` closes in the plan is the loop of the `JIZ` that it
/// points at.
pub proof fn lemma_plan_follows_targets(plan: Seq<Emit>, instrs: Seq<IR>, t: Seq<Opcode>)
    requires
        balanced(t),
        t.len() <= u32::MAX,
        folded(instrs, t, t.len() as int),
        planned(plan, instrs, instrs.len() as int),
    ensures
        faithful(plan, instrs),
{
    let n = t.len() as int;
    lemma_count_monotone(t, 0, n);
    assert forall|b: int| 0 <= b < plan.len() implies #[trigger] plan[b] == unit_of(
        b,
        instrs[b],
    ) by {
        if kind_of(instrs[b]) == Opcode::RB {
            let k = lemma_slot_onto(t, n, b);
            assert(kind_of(instrs[slot(t, k)]) == t[k]);
            let i = lemma_close_has_open(t, k);
            assert(is_pair(t, i, k));
            lemma_folded_keeps_pairs(instrs, t, i, k);
            lemma_slot_order(t, i, k);
            assert(is_pair(kinds(instrs), slot(t, i), b));
        }
    }
}

/// Compiles a source text and lays out its native code.
///
/// Succeeds exactly when the loop tokens of the source are balanced, so an
/// unbalanced source is refused before anything is emitted. The plan then
/// has one unit per instruction and names each loop as the jump targets
/// do. Instruction indices are 32 bits wide, which bounds the source's
/// length.
pub fn lower(data: Vec<u8>) -> (r: Result<(Code, Vec<Emit>), Error>)
    requires
        data@.len() <= u32::MAX,
    ensures
        r is Ok <==> balanced(tokenize(data@)),
        r matches Ok((c, p)) ==> c.folds(tokenize(data@)) && c.wf() && faithful(p@, c.instrs@),
        r matches Err(e) ==> e == Error::UnbalancedLoop,
{
    let ghost t = tokenize(data@);
    proof {
        data@.lemma_filter_len(|b: u8| crate::opcode::is_command(b));
    }
    match compile(data) {
        Err(e) => Err(e),
        Ok(code) => {
            proof {
                lemma_folded_keeps_balance(code.instrs@, t);
            }
            match plan(&code) {
                Err(e) => Err(e),
                Ok(units) => {
                    proof {
                        lemma_plan_follows_targets(units@, code.instrs@, t);
                    }
                    Ok((code, units))
                },
            }
        },
    }
}

} // verus!
