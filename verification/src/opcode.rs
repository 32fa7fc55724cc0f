use crate::error::Error;
use std::collections::HashMap;
use vstd::prelude::*;

verus! {

broadcast use vstd::std_specs::hash::group_hash_axioms;

/// One of the eight commands of the source language.
#[derive(Debug, Clone, Copy, PartialEq, Eq, Structural)]
pub enum Opcode {
    /// `>`: move the tape pointer one cell to the right.
    SHR,
    /// `<`: move the tape pointer one cell to the left.
    SHL,
    /// `+`: increment the current cell.
    ADD,
    /// `-`: decrement the current cell.
    SUB,
    /// `.`: output the current cell.
    PUTCHAR,
    /// `,`: read one byte into the current cell.
    GETCHAR,
    /// `[`: loop-open.
    LB,
    /// `]`: loop-close.
    RB,
}

/// Whether a source byte is one of the eight command bytes.
pub open spec fn is_command(b: u8) -> bool {
    b == 0x3E || b == 0x3C || b == 0x2B || b == 0x2D || b == 0x2E || b == 0x2C || b == 0x5B || b
        == 0x5D
}

/// The command that a command byte stands for.
pub open spec fn decode(b: u8) -> Opcode {
    if b == 0x3E {
        Opcode::SHR
    } else if b == 0x3C {
        Opcode::SHL
    } else if b == 0x2B {
        Opcode::ADD
    } else if b == 0x2D {
        Opcode::SUB
    } else if b == 0x2E {
        Opcode::PUTCHAR
    } else if b == 0x2C {
        Opcode::GETCHAR
    } else if b == 0x5B {
        Opcode::LB
    } else {
        Opcode::RB
    }
}

/// The source byte of a command.
pub open spec fn encode(op: Opcode) -> u8 {
    match op {
        Opcode::SHR => 0x3E,
        Opcode::SHL => 0x3C,
        Opcode::ADD => 0x2B,
        Opcode::SUB => 0x2D,
        Opcode::PUTCHAR => 0x2E,
        Opcode::GETCHAR => 0x2C,
        Opcode::LB => 0x5B,
        Opcode::RB => 0x5D,
    }
}

/// The commands of a source text, in order, with every other byte dropped.
pub open spec fn tokenize(data: Seq<u8>) -> Seq<Opcode> {
    data.filter(|b: u8| is_command(b)).map_values(|b: u8| decode(b))
}

/// The change in loop nesting that a command causes.
pub open spec fn delta(op: Opcode) -> int {
    match op {
        Opcode::LB => 1,
        Opcode::RB => -1,
        _ => 0,
    }
}

/// Loop-opens minus loop-closes among the first `k` tokens.
pub open spec fn depth(t: Seq<Opcode>, k: int) -> int
    decreases k,
{
    if k <= 0 {
        0
    } else {
        depth(t, k - 1) + delta(t[k - 1])
    }
}

/// Every loop-close has a loop-open before it, and no loop-open is left
/// pending at the end.
pub open spec fn balanced(t: Seq<Opcode>) -> bool {
    &&& depth(t, t.len() as int) == 0
    &&& forall|k: int| 0 <= k <= t.len() ==> depth(t, k) >= 0
}

/// Token `i` is a loop-open and token `j` is the loop-close that ends it:
/// the nesting stays above its level at `i` from `i + 1` through `j`, and
/// is back at that level right after `j`.
pub open spec fn is_pair(t: Seq<Opcode>, i: int, j: int) -> bool {
    &&& 0 <= i < j < t.len()
    &&& t[i] == Opcode::LB
    &&& t[j] == Opcode::RB
    &&& depth(t, j + 1) == depth(t, i)
    &&& forall|k: int| i < k <= j ==> depth(t, k) > depth(t, i)
}

/// During a scan that has read `n` tokens, position `p` is a loop-open
/// that is still pending, at nesting level `s`.
pub open spec fn pending_at(t: Seq<Opcode>, p: int, s: int, n: int) -> bool {
    &&& 0 <= p < n
    &&& t[p] == Opcode::LB
    &&& depth(t, p) == s
    &&& forall|k: int| p < k <= n ==> depth(t, k) > s
}

impl Opcode {
    /// Whether `value` is a command byte.
    pub fn accepts(value: u8) -> (r: bool)
        ensures
            r == is_command(value),
    {
        value == 0x3E || value == 0x3C || value == 0x2B || value == 0x2D || value == 0x2E || value
            == 0x2C || value == 0x5B || value == 0x5D
    }

    /// The command for a command byte.
    pub fn from(value: u8) -> (op: Opcode)
        requires
            is_command(value),
        ensures
            op == decode(value),
            encode(op) == value,
    {
        match value {
            0x3E => Opcode::SHR,
            0x3C => Opcode::SHL,
            0x2B => Opcode::ADD,
            0x2D => Opcode::SUB,
            0x2E => Opcode::PUTCHAR,
            0x2C => Opcode::GETCHAR,
            0x5B => Opcode::LB,
            _ => Opcode::RB,
        }
    }

    /// The source byte of this command.
    pub fn byte(&self) -> (b: u8)
        ensures
            b == encode(*self),
            is_command(b),
            decode(b) == *self,
    {
        match self {
            Opcode::SHR => 0x3E,
            Opcode::SHL => 0x3C,
            Opcode::ADD => 0x2B,
            Opcode::SUB => 0x2D,
            Opcode::PUTCHAR => 0x2E,
            Opcode::GETCHAR => 0x2C,
            Opcode::LB => 0x5B,
            Opcode::RB => 0x5D,
        }
    }
}

/// Reading one more byte either appends its command or changes nothing.
pub proof fn lemma_tokenize_push(data: Seq<u8>, b: u8)
    ensures
        tokenize(data.push(b)) == if is_command(b) {
            tokenize(data).push(decode(b))
        } else {
            tokenize(data)
        },
{
    reveal(Seq::filter);
    let pred = |b: u8| is_command(b);
    assert(data.push(b).drop_last() =~= data);
    if is_command(b) {
        assert(data.push(b).filter(pred) =~= data.filter(pred).push(b));
        assert(tokenize(data.push(b)) =~= tokenize(data).push(decode(b)));
    } else {
        assert(data.push(b).filter(pred) =~= data.filter(pred));
    }
}

/// The tokenizer: keeps the command bytes of `data`, in order.
pub fn tokens(data: &Vec<u8>) -> (instrs: Vec<Opcode>)
    ensures
        instrs@ == tokenize(data@),
{
    let mut instrs: Vec<Opcode> = Vec::new();
    let mut i: usize = 0;
    proof {
        reveal(Seq::filter);
        assert(data@.take(0) =~= Seq::<u8>::empty());
        assert(tokenize(Seq::<u8>::empty()) =~= Seq::<Opcode>::empty());
    }
    while i < data.len()
        invariant
            0 <= i <= data.len(),
            instrs@ == tokenize(data@.take(i as int)),
        decreases data.len() - i,
    {
        let b = data[i];
        proof {
            lemma_tokenize_push(data@.take(i as int), b);
            assert(data@.take(i as int).push(b) =~= data@.take(i + 1));
        }
        if Opcode::accepts(b) {
            instrs.push(Opcode::from(b));
        }
        i += 1;
    }
    proof {
        assert(data@.take(data.len() as int) =~= data@);
    }
    instrs
}

/// A token sequence with its jump table: each loop-open mapped to its
/// loop-close and each loop-close to its loop-open, by token index.
#[derive(Debug)]
pub struct Code {
    pub instrs: Vec<Opcode>,
    pub jtable: HashMap<usize, usize>,
}

impl Code {
    /// The tokens are balanced, the table's keys are exactly the positions
    /// of the loop tokens, and each entry joins a loop-open with the
    /// loop-close that ends it.
    pub open spec fn wf(&self) -> bool {
        let t = self.instrs@;
        let m = self.jtable@;
        &&& balanced(t)
        &&& forall|p: usize|
            m.contains_key(p) <==> (p < t.len() && (t[p as int] == Opcode::LB || t[p as int]
                == Opcode::RB))
        &&& forall|p: usize|
            #![trigger m[p]]
            m.contains_key(p) && t[p as int] == Opcode::LB ==> is_pair(t, p as int, m[p] as int)
        &&& forall|p: usize|
            #![trigger m[p]]
            m.contains_key(p) && t[p as int] == Opcode::RB ==> is_pair(t, m[p] as int, p as int)
    }

    /// Tokenizes `data` and matches its loops.
    ///
    /// Succeeds exactly when the loop tokens are balanced; the result then
    /// holds the tokens and the complete jump table.
    #[verifier::rlimit(60)]
    pub fn from(data: Vec<u8>) -> (r: Result<Code, Error>)
        ensures
            r is Ok <==> balanced(tokenize(data@)),
            r matches Ok(c) ==> c.instrs@ == tokenize(data@) && c.wf(),
            r matches Err(e) ==> e == Error::UnbalancedLoop,
    {
        let instrs = tokens(&data);
        let ghost t = instrs@;
        let mut jstack: Vec<usize> = Vec::new();
        let mut jtable: HashMap<usize, usize> = HashMap::new();
        let mut i: usize = 0;
        while i < instrs.len()
            invariant
                0 <= i <= instrs.len(),
                t == instrs@,
                t == tokenize(data@),
                forall|k: int| 0 <= k <= i ==> depth(t, k) >= 0,
                jstack@.len() == depth(t, i as int),
                forall|s: int|
                    0 <= s < jstack@.len() ==> pending_at(t, #[trigger] jstack@[s] as int, s, i as int),
                forall|p: usize|
                    #![trigger jtable@.contains_key(p)]
                    jtable@.contains_key(p) ==> p < i && (t[p as int] == Opcode::LB || t[p as int]
                        == Opcode::RB),
                forall|p: usize|
                    #![trigger jtable@[p]]
                    jtable@.contains_key(p) && t[p as int] == Opcode::LB ==> is_pair(
                        t,
                        p as int,
                        jtable@[p] as int,
                    ),
                forall|p: usize|
                    #![trigger jtable@[p]]
                    jtable@.contains_key(p) && t[p as int] == Opcode::RB ==> is_pair(
                        t,
                        jtable@[p] as int,
                        p as int,
                    ),
                forall|p: usize|
                    #![trigger jtable@.contains_key(p)]
                    p < i && t[p as int] == Opcode::RB ==> jtable@.contains_key(p),
                forall|p: usize|
                    #![trigger jtable@.contains_key(p)]
                    p < i && t[p as int] == Opcode::LB && !jtable@.contains_key(p) ==> {
                        &&& 0 <= depth(t, p as int) < jstack@.len()
                        &&& jstack@[depth(t, p as int)] == p
                    },
            decreases instrs.len() - i,
        {
            let ghost old_stack = jstack@;
            let ghost old_table = jtable@;
            match instrs[i] {
                Opcode::LB => {
                    jstack.push(i);
                },
                Opcode::RB => {
                    match jstack.pop() {
                        None => {
                            proof {
                                assert(depth(t, i + 1) < 0);
                                assert(!balanced(t));
                            }
                            return Err(Error::UnbalancedLoop);
                        },
                        Some(j) => {
                            proof {
                                assert(pending_at(t, old_stack[old_stack.len() - 1] as int, old_stack.len() - 1, i as int));
                                assert(is_pair(t, j as int, i as int));
                            }
                            jtable.insert(j, i);
                            jtable.insert(i, j);
                        },
                    }
                },
                _ => {},
            }
            proof {
                assert(depth(t, i + 1) == depth(t, i as int) + delta(t[i as int]));
                assert forall|s: int| 0 <= s < jstack@.len() implies pending_at(
                    t,
                    #[trigger] jstack@[s] as int,
                    s,
                    i + 1,
                ) by {
                    if s < old_stack.len() {
                        assert(pending_at(t, old_stack[s] as int, s, i as int));
                    }
                }
                assert forall|p: usize|
                    #![trigger jtable@.contains_key(p)]
                    p < i + 1 && t[p as int] == Opcode::LB && !jtable@.contains_key(p) implies {
                    &&& 0 <= depth(t, p as int) < jstack@.len()
                    &&& jstack@[depth(t, p as int)] == p
                } by {
                    if p < i {
                        assert(!old_table.contains_key(p));
                    }
                }
            }
            i += 1;
        }
        if jstack.len() != 0 {
            return Err(Error::UnbalancedLoop);
        }
        Ok(Code { instrs, jtable })
    }
}

/// A loop-open is paired with at most one loop-close, and a loop-close
/// with at most one loop-open.
pub proof fn lemma_pair_unique(t: Seq<Opcode>, i: int, j: int, i2: int, j2: int)
    requires
        is_pair(t, i, j),
        is_pair(t, i2, j2),
    ensures
        i == i2 <==> j == j2,
{
    if i == i2 && j != j2 {
        if j < j2 {
            assert(depth(t, j + 1) > depth(t, i2));
        } else {
            assert(depth(t, j2 + 1) > depth(t, i));
        }
    }
    if j == j2 && i != i2 {
        if i < i2 {
            assert(depth(t, i2) > depth(t, i));
        } else {
            assert(depth(t, i) > depth(t, i2));
        }
    }
}

/// The jump table of a well-formed program is a bijection between the
/// loop-opens and the loop-closes: an entry leads from a loop-open forward
/// to a loop-close and from a loop-close back to a loop-open, following it
/// twice leads back to where one started, no two keys share a value, and
/// the entry of a loop-open is the only loop-close that ends it.
pub proof fn lemma_jump_table_bijection(c: Code)
    requires
        c.wf(),
    ensures
        forall|p: usize|
            #![trigger c.jtable@[p]]
            c.jtable@.contains_key(p) ==> {
                &&& c.jtable@.contains_key(c.jtable@[p])
                &&& c.jtable@[c.jtable@[p]] == p
                &&& c.instrs@[p as int] == Opcode::LB ==> p < c.jtable@[p] && c.instrs@[c.jtable@[p] as int]
                    == Opcode::RB
                &&& c.instrs@[p as int] == Opcode::RB ==> c.jtable@[p] < p && c.instrs@[c.jtable@[p] as int]
                    == Opcode::LB
            },
        forall|p: usize, q: usize|
            c.jtable@.contains_key(p) && c.jtable@.contains_key(q) && c.jtable@[p] == c.jtable@[q]
                ==> p == q,
        forall|p: usize, j: int|
            c.jtable@.contains_key(p) && is_pair(c.instrs@, p as int, j) ==> j == c.jtable@[p],
        forall|p: usize, i: int|
            c.jtable@.contains_key(p) && is_pair(c.instrs@, i, p as int) ==> i == c.jtable@[p],
{
    let t = c.instrs@;
    let m = c.jtable@;
    assert forall|p: usize| #![trigger m[p]] m.contains_key(p) implies {
        &&& m.contains_key(m[p])
        &&& m[m[p]] == p
        &&& t[p as int] == Opcode::LB ==> p < m[p] && t[m[p] as int] == Opcode::RB
        &&& t[p as int] == Opcode::RB ==> m[p] < p && t[m[p] as int] == Opcode::LB
    } by {
        let q = m[p];
        if t[p as int] == Opcode::LB {
            assert(is_pair(t, p as int, q as int));
            assert(m.contains_key(q));
            assert(is_pair(t, m[q] as int, q as int));
            lemma_pair_unique(t, p as int, q as int, m[q] as int, q as int);
        } else {
            assert(is_pair(t, q as int, p as int));
            assert(m.contains_key(q));
            assert(is_pair(t, q as int, m[q] as int));
            lemma_pair_unique(t, q as int, p as int, q as int, m[q] as int);
        }
    }
    assert forall|p: usize, q: usize|
        m.contains_key(p) && m.contains_key(q) && m[p] == m[q] implies p == q by {
        assert(m[m[p]] == p);
        assert(m[m[q]] == q);
    }
    assert forall|p: usize, j: int| m.contains_key(p) && is_pair(t, p as int, j) implies j
        == m[p] by {
        assert(is_pair(t, p as int, m[p] as int));
        lemma_pair_unique(t, p as int, j, p as int, m[p] as int);
    }
    assert forall|p: usize, i: int| m.contains_key(p) && is_pair(t, i, p as int) implies i
        == m[p] by {
        assert(is_pair(t, m[p] as int, p as int));
        lemma_pair_unique(t, i, p as int, m[p] as int, p as int);
    }
}

/// Scans forward from a loop-open for the loop-close that ends it.
proof fn lemma_scan_close(t: Seq<Opcode>, i: int, j: int) -> (r: int)
    requires
        balanced(t),
        0 <= i < j <= t.len(),
        t[i] == Opcode::LB,
        forall|k: int| i < k <= j ==> depth(t, k) > depth(t, i),
    ensures
        is_pair(t, i, r),
    decreases t.len() - j,
{
    assert(depth(t, i) >= 0);
    assert(depth(t, j) > depth(t, i));
    if depth(t, j + 1) > depth(t, i) {
        assert forall|k: int| i < k <= j + 1 implies depth(t, k) > depth(t, i) by {}
        lemma_scan_close(t, i, j + 1)
    } else {
        j
    }
}

/// Scans backward from a loop-close for the loop-open that it ends.
proof fn lemma_scan_open(t: Seq<Opcode>, i: int, j: int) -> (r: int)
    requires
        balanced(t),
        0 <= i < j < t.len(),
        t[j] == Opcode::RB,
        forall|k: int| i < k <= j ==> #[trigger] depth(t, k) > depth(t, j + 1),
    ensures
        is_pair(t, r, j),
    decreases i,
{
    assert(depth(t, j + 1) >= 0);
    assert(depth(t, i + 1) == depth(t, i) + delta(t[i]));
    if depth(t, i) > depth(t, j + 1) {
        assert(depth(t, 0) == 0);
        assert forall|k: int| i - 1 < k <= j implies #[trigger] depth(t, k) > depth(t, j + 1) by {}
        lemma_scan_open(t, i - 1, j)
    } else {
        i
    }
}

/// In a balanced sequence every loop-open has a loop-close that ends it.
pub proof fn lemma_open_has_close(t: Seq<Opcode>, i: int) -> (j: int)
    requires
        balanced(t),
        0 <= i < t.len(),
        t[i] == Opcode::LB,
    ensures
        is_pair(t, i, j),
{
    assert(depth(t, i + 1) == depth(t, i) + delta(t[i]));
    lemma_scan_close(t, i, i + 1)
}

/// In a balanced sequence every loop-close ends a loop-open.
pub proof fn lemma_close_has_open(t: Seq<Opcode>, j: int) -> (i: int)
    requires
        balanced(t),
        0 <= j < t.len(),
        t[j] == Opcode::RB,
    ensures
        is_pair(t, i, j),
{
    assert(depth(t, j + 1) == depth(t, j) + delta(t[j]));
    assert(depth(t, j + 1) >= 0);
    assert(depth(t, 0) == 0);
    lemma_scan_open(t, j - 1, j)
}

/// Every loop token has a partner.
pub open spec fn all_matched(t: Seq<Opcode>) -> bool {
    forall|k: int|
        0 <= k < t.len() ==> {
            &&& #[trigger] t[k] == Opcode::LB ==> exists|j: int| is_pair(t, k, j)
            &&& t[k] == Opcode::RB ==> exists|i: int| is_pair(t, i, k)
        }
}

/// Scans forward for the first prefix whose nesting is negative: it ends
/// in a loop-close without a partner.
proof fn lemma_first_unmatched_close(t: Seq<Opcode>, x: int, k: int) -> (m: int)
    requires
        0 <= x <= k <= t.len(),
        forall|y: int| 0 <= y <= x ==> depth(t, y) >= 0,
        depth(t, k) < 0,
    ensures
        0 <= m < t.len(),
        t[m] == Opcode::RB,
        forall|i: int| !is_pair(t, i, m),
    decreases k - x,
{
    assert(depth(t, x + 1) == depth(t, x) + delta(t[x]));
    if depth(t, x + 1) < 0 {
        assert forall|i: int| !is_pair(t, i, x) by {
            if is_pair(t, i, x) {
                assert(depth(t, i) >= 0);
            }
        }
        x
    } else {
        assert forall|y: int| 0 <= y <= x + 1 implies depth(t, y) >= 0 by {}
        lemma_first_unmatched_close(t, x + 1, k)
    }
}

/// Scans backward for the last loop-open that is pending at the end: it
/// has no partner.
proof fn lemma_last_pending_open(t: Seq<Opcode>, x: int) -> (m: int)
    requires
        0 <= x < t.len(),
        depth(t, t.len() as int) > 0,
        forall|y: int| x < y <= t.len() ==> #[trigger] depth(t, y) >= depth(t, t.len() as int),
    ensures
        0 <= m < t.len(),
        t[m] == Opcode::LB,
        forall|j: int| !is_pair(t, m, j),
    decreases x,
{
    let d = depth(t, t.len() as int);
    assert(depth(t, x + 1) == depth(t, x) + delta(t[x]));
    assert(depth(t, x + 1) >= d);
    if depth(t, x) < d {
        assert forall|j: int| !is_pair(t, x, j) by {
            if is_pair(t, x, j) {
                assert(depth(t, j + 1) >= d);
            }
        }
        x
    } else {
        assert(depth(t, 0) == 0);
        assert forall|y: int| x - 1 < y <= t.len() implies #[trigger] depth(t, y) >= d by {}
        lemma_last_pending_open(t, x - 1)
    }
}

/// A token sequence is balanced exactly when every loop token has a
/// partner: a loop-close without a loop-open before it, or a loop-open
/// left pending at the end, makes it unbalanced, and nothing else does.
pub proof fn lemma_balanced_iff_matched(t: Seq<Opcode>)
    ensures
        balanced(t) <==> all_matched(t),
{
    if balanced(t) {
        assert forall|k: int| 0 <= k < t.len() implies {
            &&& #[trigger] t[k] == Opcode::LB ==> exists|j: int| is_pair(t, k, j)
            &&& t[k] == Opcode::RB ==> exists|i: int| is_pair(t, i, k)
        } by {
            if t[k] == Opcode::LB {
                let j = lemma_open_has_close(t, k);
                assert(is_pair(t, k, j));
            }
            if t[k] == Opcode::RB {
                let i = lemma_close_has_open(t, k);
                assert(is_pair(t, i, k));
            }
        }
    } else {
        let n = t.len() as int;
        if exists|k: int| 0 <= k <= n && depth(t, k) < 0 {
            let k = choose|k: int| 0 <= k <= n && depth(t, k) < 0;
            assert(depth(t, 0) == 0);
            let m = lemma_first_unmatched_close(t, 0, k);
            assert(t[m] == Opcode::RB);
            assert(!all_matched(t));
        } else {
            assert(depth(t, 0) == 0);
            assert(depth(t, n) > 0);
            let m = lemma_last_pending_open(t, n - 1);
            assert(t[m] == Opcode::LB);
            assert(!all_matched(t));
        }
    }
}

} // verus!
