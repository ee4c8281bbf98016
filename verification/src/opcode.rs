use std::collections::HashMap;
use vstd::prelude::*;

verus! {

broadcast use vstd::std_specs::hash::group_hash_axioms;

/// One operation of the eight-instruction tape language.
///
/// Each variant is written as exactly one ASCII byte in source text:
/// `>` `<` `+` `-` `.` `,` `[` `]`. Every other byte is a comment.
#[derive(Clone, Copy, Debug, PartialEq, Eq, Structural)]
pub enum OpCode {
    SHR,
    SHL,
    ADD,
    SUB,
    PUTCHAR,
    GETCHAR,
    LB,
    RB,
}

/// The instruction a source byte denotes, or `None` for a comment byte.
pub open spec fn opcode_of_byte(b: u8) -> Option<OpCode> {
    if b == 62u8 {
        Some(OpCode::SHR)
    } else if b == 60u8 {
        Some(OpCode::SHL)
    } else if b == 43u8 {
        Some(OpCode::ADD)
    } else if b == 45u8 {
        Some(OpCode::SUB)
    } else if b == 46u8 {
        Some(OpCode::PUTCHAR)
    } else if b == 44u8 {
        Some(OpCode::GETCHAR)
    } else if b == 91u8 {
        Some(OpCode::LB)
    } else if b == 93u8 {
        Some(OpCode::RB)
    } else {
        None
    }
}

impl OpCode {
    /// Parses one source byte; `None` for a comment byte.
    pub fn from_byte(b: u8) -> (r: Option<OpCode>)
        ensures
            r == opcode_of_byte(b),
    {
        match b {
            62u8 => Some(OpCode::SHR),
            60u8 => Some(OpCode::SHL),
            43u8 => Some(OpCode::ADD),
            45u8 => Some(OpCode::SUB),
            46u8 => Some(OpCode::PUTCHAR),
            44u8 => Some(OpCode::GETCHAR),
            91u8 => Some(OpCode::LB),
            93u8 => Some(OpCode::RB),
            _ => None,
        }
    }

    /// The source byte this instruction is written as.
    pub fn to_byte(self) -> (r: u8)
        ensures
            opcode_of_byte(r) == Some(self),
    {
        match self {
            OpCode::SHR => 62u8,
            OpCode::SHL => 60u8,
            OpCode::ADD => 43u8,
            OpCode::SUB => 45u8,
            OpCode::PUTCHAR => 46u8,
            OpCode::GETCHAR => 44u8,
            OpCode::LB => 91u8,
            OpCode::RB => 93u8,
        }
    }
}

/// The program obtained from raw source bytes: comment bytes are dropped,
/// instruction bytes are kept in order.
pub open spec fn parse_instrs(data: Seq<u8>) -> Seq<OpCode>
    decreases data.len(),
{
    if data.len() == 0 {
        Seq::empty()
    } else {
        let rest = parse_instrs(data.drop_last());
        match opcode_of_byte(data.last()) {
            Some(op) => rest.push(op),
            None => rest,
        }
    }
}

/// What can go wrong in the engine: compilation rejects unbalanced loop
/// delimiters, and execution fails when the input stream runs dry.
#[derive(Clone, Copy, Debug, PartialEq, Eq, Structural)]
pub enum EngineError {
    UnbalancedBrackets,
    InputExhausted,
}

/// The state of the bracket-matching pass after some prefix of the program:
/// the indices of the loop-opens still waiting for their loop-close, and the
/// jump table built so far.
pub struct ScanState {
    pub stack: Seq<usize>,
    pub table: Map<usize, usize>,
}

/// One instruction of the bracket-matching pass: a loop-open pushes its
/// index, a loop-close pops the matching open (failing on an empty stack)
/// and records the pair in both directions; everything else is skipped.
pub open spec fn scan_step(op: OpCode, i: usize, st: ScanState) -> Option<ScanState> {
    if op == OpCode::LB {
        Some(ScanState { stack: st.stack.push(i), table: st.table })
    } else if op == OpCode::RB {
        if st.stack.len() == 0 {
            None
        } else {
            Some(
                ScanState {
                    stack: st.stack.drop_last(),
                    table: st.table.insert(i, st.stack.last()).insert(st.stack.last(), i),
                },
            )
        }
    } else {
        Some(st)
    }
}

/// The bracket-matching pass over the first `n` instructions; `None` means a
/// loop-close appeared with no pending loop-open.
pub open spec fn scan(instrs: Seq<OpCode>, n: int) -> Option<ScanState>
    decreases n,
{
    if n <= 0 {
        Some(ScanState { stack: Seq::empty(), table: Map::empty() })
    } else {
        match scan(instrs, n - 1) {
            None => None,
            Some(st) => scan_step(instrs[n - 1], (n - 1) as usize, st),
        }
    }
}

/// What compilation returns on given source bytes: the filtered program and
/// its jump table, or `None` when the loop delimiters do not match up
/// (a close without a pending open, or an open never closed).
pub open spec fn compile_spec(data: Seq<u8>) -> Option<(Seq<OpCode>, Map<usize, usize>)> {
    let instrs = parse_instrs(data);
    match scan(instrs, instrs.len() as int) {
        None => None,
        Some(st) => if st.stack.len() == 0 {
            Some((instrs, st.table))
        } else {
            None
        },
    }
}

/// A compiled program: the instruction sequence and the jump table that maps
/// each loop delimiter's index to its partner's index.
pub struct Code {
    pub instrs: Vec<OpCode>,
    pub jtable: HashMap<usize, usize>,
}

impl Code {
    /// Compiles raw source bytes: drops comment bytes, keeps the instruction
    /// bytes in order, and matches loop delimiters into the jump table.
    pub fn from(data: Vec<u8>) -> (r: Result<Code, EngineError>)
        ensures
            (match r {
                Ok(code) => compile_spec(data@) == Some((code.instrs@, code.jtable@)),
                Err(e) => compile_spec(data@) is None && e == EngineError::UnbalancedBrackets,
            }),
    {
        let mut instrs: Vec<OpCode> = Vec::new();
        let mut k: usize = 0;
        while k < data.len()
            invariant
                k <= data.len(),
                instrs@ == parse_instrs(data@.take(k as int)),
            decreases data.len() - k,
        {
            proof {
                assert(data@.take(k + 1).drop_last() =~= data@.take(k as int));
                assert(data@.take(k + 1).last() == data@[k as int]);
            }
            match OpCode::from_byte(data[k]) {
                Some(op) => instrs.push(op),
                None => (),
            }
            k = k + 1;
        }
        proof {
            assert(data@.take(data@.len() as int) =~= data@);
        }
        let mut jstack: Vec<usize> = Vec::new();
        let mut jtable: HashMap<usize, usize> = HashMap::new();
        let mut i: usize = 0;
        while i < instrs.len()
            invariant
                i <= instrs.len(),
                instrs@ == parse_instrs(data@),
                scan(instrs@, i as int) == Some(ScanState { stack: jstack@, table: jtable@ }),
            decreases instrs.len() - i,
        {
            let op = instrs[i];
            match op {
                OpCode::LB => {
                    jstack.push(i);
                },
                OpCode::RB => {
                    match jstack.pop() {
                        Some(j) => {
                            jtable.insert(i, j);
                            jtable.insert(j, i);
                        },
                        None => {
                            proof {
                                lemma_scan_none_persists(instrs@, i + 1, instrs@.len() as int);
                            }
                            return Err(EngineError::UnbalancedBrackets);
                        },
                    }
                },
                _ => {},
            }
            i = i + 1;
        }
        if jstack.len() == 0 {
            Ok(Code { instrs, jtable })
        } else {
            Err(EngineError::UnbalancedBrackets)
        }
    }
}

/// Once the bracket-matching pass has failed, it stays failed on every longer
/// prefix.
proof fn lemma_scan_none_persists(instrs: Seq<OpCode>, m: int, n: int)
    requires
        0 <= m <= n,
        scan(instrs, m) is None,
    ensures
        scan(instrs, n) is None,
    decreases n - m,
{
    if m < n {
        lemma_scan_none_persists(instrs, m, n - 1);
    }
}

/// The number of loop-open instructions among the first `n`.
pub open spec fn opens(instrs: Seq<OpCode>, n: int) -> int
    decreases n,
{
    if n <= 0 {
        0
    } else {
        opens(instrs, n - 1) + (if instrs[n - 1] == OpCode::LB {
            1int
        } else {
            0int
        })
    }
}

/// The number of loop-close instructions among the first `n`.
pub open spec fn closes(instrs: Seq<OpCode>, n: int) -> int
    decreases n,
{
    if n <= 0 {
        0
    } else {
        closes(instrs, n - 1) + (if instrs[n - 1] == OpCode::RB {
            1int
        } else {
            0int
        })
    }
}

/// A program's loop delimiters are balanced: as many closes as opens in
/// total, and no prefix closes more loops than it has opened.
pub open spec fn balanced(instrs: Seq<OpCode>) -> bool {
    &&& opens(instrs, instrs.len() as int) == closes(instrs, instrs.len() as int)
    &&& forall|k: int| 0 <= k <= instrs.len() ==> #[trigger] closes(instrs, k) <= opens(instrs, k)
}

/// The bracket-matching pass succeeds on a prefix exactly when no part of it
/// closes more loops than it has opened, and the pending stack then holds one
/// entry per loop still open.
proof fn lemma_scan_counts(instrs: Seq<OpCode>, n: int)
    requires
        0 <= n <= instrs.len(),
    ensures
        (scan(instrs, n) is Some) <==> (forall|k: int|
            0 <= k <= n ==> #[trigger] closes(instrs, k) <= opens(instrs, k)),
        (scan(instrs, n) matches Some(st) ==> st.stack.len() == opens(instrs, n) - closes(
            instrs,
            n,
        )),
    decreases n,
{
    if n > 0 {
        lemma_scan_counts(instrs, n - 1);
        if scan(instrs, n - 1) is None {
            assert(!(forall|k: int|
                0 <= k <= n - 1 ==> #[trigger] closes(instrs, k) <= opens(instrs, k)));
            let k0 = choose|k0: int|
                !(0 <= k0 <= n - 1 ==> #[trigger] closes(instrs, k0) <= opens(instrs, k0));
            assert(!(0 <= k0 <= n ==> closes(instrs, k0) <= opens(instrs, k0)));
        } else {
            let st = scan(instrs, n - 1)->Some_0;
            if instrs[n - 1] == OpCode::RB && st.stack.len() == 0 {
                assert(closes(instrs, n) > opens(instrs, n));
                assert(scan(instrs, n) is None);
            } else {
                assert(scan(instrs, n) is Some);
                assert(closes(instrs, n) <= opens(instrs, n));
                assert forall|k: int| 0 <= k <= n implies #[trigger] closes(instrs, k) <= opens(
                    instrs,
                    k,
                ) by {
                    if k <= n - 1 {
                        assert(closes(instrs, k) <= opens(instrs, k));
                    }
                }
            }
        }
    }
}

/// Compilation succeeds exactly on the sources whose loop delimiters are
/// balanced: every loop-open has a later loop-close and every loop-close a
/// pending loop-open.
pub proof fn lemma_compile_succeeds_iff_balanced(data: Seq<u8>)
    ensures
        compile_spec(data) is Some <==> balanced(parse_instrs(data)),
{
    let instrs = parse_instrs(data);
    lemma_scan_counts(instrs, instrs.len() as int);
}

/// A source with a loop-close that no pending loop-open matches is rejected:
/// some prefix of its program closes more loops than it has opened, and then
/// compilation returns no program at all, so nothing is ever executed.
pub proof fn lemma_unmatched_close_fails(data: Seq<u8>, k: int)
    requires
        0 <= k <= parse_instrs(data).len(),
        closes(parse_instrs(data), k) > opens(parse_instrs(data), k),
    ensures
        compile_spec(data) is None,
{
    let instrs = parse_instrs(data);
    lemma_scan_counts(instrs, instrs.len() as int);
}

/// A program never has more instructions than its source has bytes.
pub proof fn lemma_parse_len(data: Seq<u8>)
    ensures
        parse_instrs(data).len() <= data.len(),
    decreases data.len(),
{
    if data.len() > 0 {
        lemma_parse_len(data.drop_last());
    }
}

/// Every jump-table entry is half of a symmetric loop-open/loop-close pair:
/// a loop-open maps forward to its loop-close, a loop-close back to its
/// loop-open, and following the table twice returns to the start.
pub open spec fn table_wf(instrs: Seq<OpCode>, t: Map<usize, usize>) -> bool {
    forall|i: usize| #[trigger] t.contains_key(i) ==> {
        &&& i < instrs.len()
        &&& t.contains_key(t[i])
        &&& t[t[i]] == i
        &&& (instrs[i as int] == OpCode::LB || instrs[i as int] == OpCode::RB)
        &&& (instrs[i as int] == OpCode::LB ==> i < t[i] && instrs[t[i] as int] == OpCode::RB)
        &&& (instrs[i as int] == OpCode::RB ==> t[i] < i && instrs[t[i] as int] == OpCode::LB)
    }
}

/// Matched pairs never straddle one another: a pair that opens strictly
/// inside another pair also closes strictly inside it.
pub open spec fn table_nested(t: Map<usize, usize>) -> bool {
    forall|a: usize, c: usize|
        t.contains_key(a) && t.contains_key(c) && a < c && c < t[a] ==> a < (#[trigger] t[c]) && t[c]
            < (#[trigger] t[a])
}

/// The invariant of the bracket-matching pass after `n` instructions: the
/// pending stack lists, in increasing order, exactly the loop-opens not yet
/// matched; the table pairs all other loop delimiters seen so far, well
/// formed and properly nested, and no completed pair straddles a pending
/// loop-open.
pub open spec fn scan_wf(instrs: Seq<OpCode>, n: int, st: ScanState) -> bool {
    &&& (forall|k: int| 0 <= k < st.stack.len() ==> {
        &&& (#[trigger] st.stack[k]) < n
        &&& instrs[st.stack[k] as int] == OpCode::LB
        &&& !st.table.contains_key(st.stack[k])
    })
    &&& (forall|k1: int, k2: int|
        0 <= k1 < k2 < st.stack.len() ==> (#[trigger] st.stack[k1]) < (#[trigger] st.stack[k2]))
    &&& (forall|i: usize| #[trigger] st.table.contains_key(i) ==> i < n)
    &&& (forall|k: int, i: usize|
        0 <= k < st.stack.len() && (#[trigger] st.table.contains_key(i)) ==> !(i < (
        #[trigger] st.stack[k]) && st.stack[k] < st.table[i]))
    &&& (forall|j: int|
        0 <= j < n && ((#[trigger] instrs[j]) == OpCode::LB || instrs[j] == OpCode::RB)
            ==> st.table.contains_key(j as usize) || st.stack.contains(j as usize))
    &&& table_wf(instrs, st.table)
    &&& table_nested(st.table)
}

/// The bracket-matching pass maintains its invariant on every prefix.
proof fn lemma_scan_wf(instrs: Seq<OpCode>, n: int)
    requires
        0 <= n <= instrs.len(),
        instrs.len() <= usize::MAX,
    ensures
        (scan(instrs, n) matches Some(st) ==> scan_wf(instrs, n, st)),
    decreases n,
{
    if n > 0 && scan(instrs, n) is Some {
        lemma_scan_wf(instrs, n - 1);
        let st0 = scan(instrs, n - 1)->Some_0;
        let st = scan(instrs, n)->Some_0;
        let i = (n - 1) as usize;
        assert(i == n - 1);
        let op = instrs[n - 1];
        if op == OpCode::LB {
            assert(st.stack == st0.stack.push(i));
            assert(st.table == st0.table);
            assert forall|k: int| 0 <= k < st.stack.len() implies {
                &&& (#[trigger] st.stack[k]) < n
                &&& instrs[st.stack[k] as int] == OpCode::LB
                &&& !st.table.contains_key(st.stack[k])
            } by {
                if k < st0.stack.len() {
                    assert(st.stack[k] == st0.stack[k]);
                } else {
                    assert(st.stack[k] == i);
                }
            }
            assert forall|k: int, i0: usize|
                0 <= k < st.stack.len() && (#[trigger] st.table.contains_key(i0)) implies !(i0 < (
            #[trigger] st.stack[k]) && st.stack[k] < st.table[i0]) by {
                if k < st0.stack.len() {
                    assert(st.stack[k] == st0.stack[k]);
                } else {
                    assert(st.stack[k] == i);
                    assert(st.table.contains_key(st.table[i0]));
                    assert(st.table[i0] < n - 1);
                }
            }
            assert forall|j: int|
                0 <= j < n && ((#[trigger] instrs[j]) == OpCode::LB || instrs[j]
                    == OpCode::RB) implies st.table.contains_key(j as usize) || st.stack.contains(
                j as usize,
            ) by {
                if j < n - 1 {
                    if st0.stack.contains(j as usize) {
                        let k0 = choose|k0: int|
                            0 <= k0 < st0.stack.len() && st0.stack[k0] == j as usize;
                        assert(st.stack[k0] == j as usize);
                    }
                } else {
                    assert(st.stack[st0.stack.len() as int] == i);
                }
            }
            assert(scan_wf(instrs, n, st));
        } else if op == OpCode::RB {
            let j = st0.stack.last();
            let len0 = st0.stack.len() as int;
            assert(j == st0.stack[len0 - 1]);
            assert(j < n - 1 && instrs[j as int] == OpCode::LB && !st0.table.contains_key(j));
            assert(st.stack == st0.stack.drop_last());
            let t2 = st0.table.insert(i, j).insert(j, i);
            assert(st.table == t2);
            assert(!st0.table.contains_key(i));
            assert(t2[i] == j && t2[j] == i);
            assert forall|x: usize| #[trigger]
                t2.contains_key(x) && x != i && x != j implies st0.table.contains_key(x) && t2[x]
                == st0.table[x] by {}
            // the new pending stack
            assert forall|k: int| 0 <= k < st.stack.len() implies {
                &&& (#[trigger] st.stack[k]) < n
                &&& instrs[st.stack[k] as int] == OpCode::LB
                &&& !st.table.contains_key(st.stack[k])
            } by {
                assert(st.stack[k] == st0.stack[k]);
                assert(st0.stack[k] < st0.stack[len0 - 1]);
                assert(st.stack[k] != j && st.stack[k] != i);
            }
            assert forall|k1: int, k2: int| 0 <= k1 < k2 < st.stack.len() implies (
            #[trigger] st.stack[k1]) < (#[trigger] st.stack[k2]) by {
                assert(st.stack[k1] == st0.stack[k1] && st.stack[k2] == st0.stack[k2]);
            }
            // no pair straddles a pending open
            assert forall|k: int, i0: usize|
                0 <= k < st.stack.len() && (#[trigger] st.table.contains_key(i0)) implies !(i0 < (
            #[trigger] st.stack[k]) && st.stack[k] < st.table[i0]) by {
                assert(st.stack[k] == st0.stack[k]);
                assert(st0.stack[k] < j);
                if i0 == i {
                } else if i0 == j {
                } else {
                    assert(st0.table.contains_key(i0) && t2[i0] == st0.table[i0]);
                }
            }
            // every delimiter seen is matched or pending
            assert forall|j0: int|
                0 <= j0 < n && ((#[trigger] instrs[j0]) == OpCode::LB || instrs[j0]
                    == OpCode::RB) implies st.table.contains_key(j0 as usize) || st.stack.contains(
                j0 as usize,
            ) by {
                if j0 < n - 1 {
                    if st0.stack.contains(j0 as usize) {
                        let k0 = choose|k0: int|
                            0 <= k0 < st0.stack.len() && st0.stack[k0] == j0 as usize;
                        if k0 == len0 - 1 {
                            assert(j0 as usize == j);
                            assert(t2.contains_key(j));
                        } else {
                            assert(st.stack[k0] == j0 as usize);
                        }
                    }
                } else {
                    assert(t2.contains_key(i));
                }
            }
            // the table stays well formed
            assert forall|x: usize| #[trigger] t2.contains_key(x) implies {
                &&& x < instrs.len()
                &&& t2.contains_key(t2[x])
                &&& t2[t2[x]] == x
                &&& (instrs[x as int] == OpCode::LB || instrs[x as int] == OpCode::RB)
                &&& (instrs[x as int] == OpCode::LB ==> x < t2[x] && instrs[t2[x] as int]
                    == OpCode::RB)
                &&& (instrs[x as int] == OpCode::RB ==> t2[x] < x && instrs[t2[x] as int]
                    == OpCode::LB)
            } by {
                if x == i {
                } else if x == j {
                } else {
                    assert(st0.table.contains_key(x));
                    assert(st0.table[x] < n - 1);
                    assert(st0.table.contains_key(st0.table[x]));
                    assert(t2[x] == st0.table[x]);
                    assert(st0.table[x] != i && st0.table[x] != j);
                    assert(t2[t2[x]] == st0.table[st0.table[x]]);
                }
            }
            assert(table_wf(instrs, t2));
            // the pairs stay properly nested
            assert forall|a: usize, c: usize|
                t2.contains_key(a) && t2.contains_key(c) && a < c && c < t2[a] implies a < (
            #[trigger] t2[c]) && t2[c] < (#[trigger] t2[a]) by {
                if a == i {
                    assert(t2[a] == j && j < i);
                } else if a == j {
                    assert(t2[a] == i);
                    assert(c != i);
                    assert(st0.table.contains_key(c) && t2[c] == st0.table[c]);
                    assert(st0.table[c] < n - 1);
                    assert(st0.table.contains_key(st0.table[c]));
                    assert(st0.table[c] != j);
                    if st0.table[c] < j {
                        // the pair (table[c], c) would straddle the pending open j
                        assert(st0.stack[len0 - 1] == j);
                        assert(!(st0.table[c] < j && j < st0.table[st0.table[c]]));
                        assert(st0.table[st0.table[c]] == c);
                        assert(false);
                    }
                } else if c == i {
                    assert(st0.table.contains_key(a));
                    assert(t2[a] == st0.table[a] && st0.table[a] < n - 1);
                } else if c == j {
                    assert(st0.table.contains_key(a) && t2[a] == st0.table[a]);
                    assert(st0.stack[len0 - 1] == j);
                    assert(!(a < j && j < st0.table[a]));
                } else {
                    assert(st0.table.contains_key(a) && st0.table.contains_key(c));
                    assert(t2[a] == st0.table[a] && t2[c] == st0.table[c]);
                }
            }
            assert(table_nested(t2));
            assert(scan_wf(instrs, n, st));
        } else {
            assert(st == st0);
            assert forall|j0: int|
                0 <= j0 < n && ((#[trigger] instrs[j0]) == OpCode::LB || instrs[j0]
                    == OpCode::RB) implies st.table.contains_key(j0 as usize) || st.stack.contains(
                j0 as usize,
            ) by {
                assert(j0 < n - 1);
            }
            assert(scan_wf(instrs, n, st));
        }
    }
}

/// What compilation guarantees of a produced program and jump table: every
/// loop delimiter's index is a key of the table, the table is symmetric,
/// each loop-open maps forward to a loop-close and back, and the matched
/// pairs are strictly nested — no pair straddles another pair's boundary.
pub proof fn lemma_compile_well_matched(data: Seq<u8>, instrs: Seq<OpCode>, jt: Map<usize, usize>)
    requires
        compile_spec(data) == Some((instrs, jt)),
        data.len() <= usize::MAX,
    ensures
        table_wf(instrs, jt),
        table_nested(jt),
        forall|j: int|
            0 <= j < instrs.len() && ((#[trigger] instrs[j]) == OpCode::LB || instrs[j]
                == OpCode::RB) ==> jt.contains_key(j as usize),
{
    lemma_parse_len(data);
    lemma_scan_wf(instrs, instrs.len() as int);
    let st = scan(instrs, instrs.len() as int)->Some_0;
    assert(st.stack.len() == 0);
    assert forall|j: int|
        0 <= j < instrs.len() && ((#[trigger] instrs[j]) == OpCode::LB || instrs[j]
            == OpCode::RB) implies jt.contains_key(j as usize) by {
        assert(!st.stack.contains(j as usize));
    }
}

/// Compilation is deterministic: the program and jump table are a function
/// of the source bytes alone, so equal sources compile identically.
pub proof fn lemma_compile_deterministic(data1: Seq<u8>, data2: Seq<u8>)
    requires
        data1 == data2,
    ensures
        compile_spec(data1) == compile_spec(data2),
{
}

} // verus!


