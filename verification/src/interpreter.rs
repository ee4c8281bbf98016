use crate::opcode::{
    compile_spec, lemma_compile_well_matched, table_wf, Code, EngineError, OpCode,
};
use vstd::prelude::*;

verus! {

broadcast use vstd::std_specs::hash::group_hash_axioms;

/// The whole machine state between two instructions: the instruction index,
/// the tape, the cell cursor, how much of the input stream has been read,
/// and the bytes written so far.
pub struct VmState {
    pub pc: int,
    pub tape: Seq<u8>,
    pub cursor: int,
    pub in_pos: int,
    pub out: Seq<u8>,
}

/// Where a bounded evaluation ended: the instruction index ran off the
/// program (`Halted`), the step budget ran out first (`Running`), or an
/// input instruction found the input stream exhausted (`Failed`).
pub enum EvalResult {
    Running(VmState),
    Halted(VmState),
    Failed(VmState),
}

/// One instruction of the machine, as a pure function of the state: `None`
/// exactly when an input instruction finds the input stream exhausted.
pub open spec fn step(
    instrs: Seq<OpCode>,
    jt: Map<usize, usize>,
    input: Seq<u8>,
    s: VmState,
) -> Option<VmState>
    recommends
        0 <= s.pc < instrs.len(),
        0 <= s.cursor < s.tape.len(),
{
    match instrs[s.pc] {
        OpCode::SHR => {
            let c: int = s.cursor + 1;
            Some(
                VmState {
                    pc: s.pc + 1,
                    tape: if c == s.tape.len() {
                        s.tape.push(0u8)
                    } else {
                        s.tape
                    },
                    cursor: c,
                    in_pos: s.in_pos,
                    out: s.out,
                },
            )
        },
        OpCode::SHL => Some(
            VmState {
                pc: s.pc + 1,
                tape: s.tape,
                cursor: if s.cursor == 0 {
                    0
                } else {
                    s.cursor - 1
                },
                in_pos: s.in_pos,
                out: s.out,
            },
        ),
        OpCode::ADD => Some(
            VmState {
                pc: s.pc + 1,
                tape: s.tape.update(s.cursor, (((s.tape[s.cursor] as int) + 1) % 256) as u8),
                cursor: s.cursor,
                in_pos: s.in_pos,
                out: s.out,
            },
        ),
        OpCode::SUB => Some(
            VmState {
                pc: s.pc + 1,
                tape: s.tape.update(s.cursor, (((s.tape[s.cursor] as int) + 255) % 256) as u8),
                cursor: s.cursor,
                in_pos: s.in_pos,
                out: s.out,
            },
        ),
        OpCode::PUTCHAR => Some(
            VmState {
                pc: s.pc + 1,
                tape: s.tape,
                cursor: s.cursor,
                in_pos: s.in_pos,
                out: s.out.push(s.tape[s.cursor]),
            },
        ),
        OpCode::GETCHAR => if s.in_pos < input.len() {
            Some(
                VmState {
                    pc: s.pc + 1,
                    tape: s.tape.update(s.cursor, input[s.in_pos]),
                    cursor: s.cursor,
                    in_pos: s.in_pos + 1,
                    out: s.out,
                },
            )
        } else {
            None
        },
        OpCode::LB => Some(
            VmState {
                pc: if s.tape[s.cursor] == 0 {
                    jt[s.pc as usize] + 1
                } else {
                    s.pc + 1
                },
                tape: s.tape,
                cursor: s.cursor,
                in_pos: s.in_pos,
                out: s.out,
            },
        ),
        OpCode::RB => Some(
            VmState {
                pc: if s.tape[s.cursor] != 0 {
                    jt[s.pc as usize] + 1
                } else {
                    s.pc + 1
                },
                tape: s.tape,
                cursor: s.cursor,
                in_pos: s.in_pos,
                out: s.out,
            },
        ),
    }
}

/// Runs the machine for at most `fuel` instructions from state `s`.
pub open spec fn eval(
    instrs: Seq<OpCode>,
    jt: Map<usize, usize>,
    input: Seq<u8>,
    s: VmState,
    fuel: nat,
) -> EvalResult
    decreases fuel,
{
    if s.pc >= instrs.len() {
        EvalResult::Halted(s)
    } else if fuel == 0 {
        EvalResult::Running(s)
    } else {
        match step(instrs, jt, input, s) {
            Some(s2) => eval(instrs, jt, input, s2, (fuel - 1) as nat),
            None => EvalResult::Failed(s),
        }
    }
}

/// The state a run starts from: instruction index 0, cursor 0, nothing read
/// or written yet.
pub open spec fn init_state(tape: Seq<u8>) -> VmState {
    VmState { pc: 0, tape: tape, cursor: 0, in_pos: 0, out: Seq::empty() }
}

/// How a bounded run ended: the program ran off its end, or the step budget
/// ran out first.
#[derive(Clone, Copy, Debug, PartialEq, Eq, Structural)]
pub enum RunStatus {
    Halted,
    Running,
}

/// The virtual machine: a growable tape of byte cells.
pub struct Interpreter {
    pub stack: Vec<u8>,
}

impl Default for Interpreter {
    /// A fresh machine: a tape of exactly one zero-valued cell.
    fn default() -> (r: Self)
        ensures
            r.stack@ == seq![0u8],
    {
        Interpreter { stack: vec![0u8] }
    }
}

impl Interpreter {
    /// Compiles the source bytes and executes the program against this
    /// machine's tape for at most `fuel` instructions, reading the input
    /// instruction's bytes from `input` and appending the output
    /// instruction's bytes to `output`. The result is exactly what the
    /// specification evaluator says of the same program, input and budget.
    #[verifier::loop_isolation(false)]
    pub fn run(
        &mut self,
        data: Vec<u8>,
        input: &Vec<u8>,
        output: &mut Vec<u8>,
        fuel: u64,
    ) -> (r: Result<RunStatus, EngineError>)
        requires
            old(self).stack.len() >= 1,
        ensures
            (match r {
                Ok(RunStatus::Halted) => (compile_spec(data@) matches Some(c) && (eval(
                    c.0,
                    c.1,
                    input@,
                    init_state(old(self).stack@),
                    fuel as nat,
                ) matches EvalResult::Halted(f) && final(self).stack@ == f.tape && final(output)@
                    == old(output)@ + f.out)),
                Ok(RunStatus::Running) => (compile_spec(data@) matches Some(c) && (eval(
                    c.0,
                    c.1,
                    input@,
                    init_state(old(self).stack@),
                    fuel as nat,
                ) matches EvalResult::Running(f) && final(self).stack@ == f.tape && final(output)@
                    == old(output)@ + f.out)),
                Err(EngineError::InputExhausted) => (compile_spec(data@) matches Some(c) && (eval(
                    c.0,
                    c.1,
                    input@,
                    init_state(old(self).stack@),
                    fuel as nat,
                ) matches EvalResult::Failed(f) && final(self).stack@ == f.tape && final(output)@
                    == old(output)@ + f.out)),
                Err(EngineError::UnbalancedBrackets) => compile_spec(data@) is None
                    && final(self).stack@ == old(self).stack@ && final(output)@ == old(output)@,
            }),
    {
        let ghost d = data@;
        let dlen = data.len();
        proof {
            assert(d.len() == dlen);
        }
        let code = match Code::from(data) {
            Ok(c) => c,
            Err(e) => {
                return Err(e);
            },
        };
        let ghost instrs = code.instrs@;
        let ghost jt = code.jtable@;
        proof {
            lemma_compile_well_matched(d, instrs, jt);
        }
        let ghost s0 = init_state(self.stack@);
        let ghost out0 = output@;
        let code_len = code.instrs.len();
        let mut pc: usize = 0;
        let mut sp: usize = 0;
        let mut ip: usize = 0;
        let mut rem: u64 = fuel;
        proof {
            assert(output@.skip(out0.len() as int) =~= Seq::<u8>::empty());
            assert(output@.take(out0.len() as int) =~= out0);
        }
        loop
            invariant
                sp < self.stack@.len(),
                ip <= input@.len(),
                pc <= code_len,
                code.instrs@ == instrs,
                code.jtable@ == jt,
                code_len == instrs.len(),
                compile_spec(d) == Some((instrs, jt)),
                table_wf(instrs, jt),
                (forall|j: int|
                    0 <= j < instrs.len() && ((#[trigger] instrs[j]) == OpCode::LB || instrs[j]
                        == OpCode::RB) ==> jt.contains_key(j as usize)),
                out0.len() <= output@.len(),
                output@.take(out0.len() as int) == out0,
                s0 == init_state(old(self).stack@),
                out0 == old(output)@,
                eval(instrs, jt, input@, s0, fuel as nat) == eval(
                    instrs,
                    jt,
                    input@,
                    VmState {
                        pc: pc as int,
                        tape: self.stack@,
                        cursor: sp as int,
                        in_pos: ip as int,
                        out: output@.skip(out0.len() as int),
                    },
                    rem as nat,
                ),
            decreases rem,
        {
            let ghost cur = VmState {
                pc: pc as int,
                tape: self.stack@,
                cursor: sp as int,
                in_pos: ip as int,
                out: output@.skip(out0.len() as int),
            };
            if pc >= code_len {
                proof {
                    assert(eval(instrs, jt, input@, cur, rem as nat) == EvalResult::Halted(cur));
                    assert(output@ =~= out0 + cur.out);
                }
                return Ok(RunStatus::Halted);
            }
            if rem == 0 {
                proof {
                    assert(eval(instrs, jt, input@, cur, rem as nat) == EvalResult::Running(cur));
                    assert(output@ =~= out0 + cur.out);
                }
                return Ok(RunStatus::Running);
            }
            rem = rem - 1;
            let op = code.instrs[pc];
            match op {
                OpCode::SHR => {
                    let tlen = self.stack.len();
                    sp = sp + 1;
                    if sp == tlen {
                        self.stack.push(0u8);
                    }
                },
                OpCode::SHL => {
                    if sp > 0 {
                        sp = sp - 1;
                    }
                },
                OpCode::ADD => {
                    let v = self.stack[sp];
                    let nv: u8 = if v == 255 {
                        0
                    } else {
                        v + 1
                    };
                    self.stack.set(sp, nv);
                    proof {
                        assert(nv as int == ((v as int) + 1) % 256);
                    }
                },
                OpCode::SUB => {
                    let v = self.stack[sp];
                    let nv: u8 = if v == 0 {
                        255
                    } else {
                        v - 1
                    };
                    self.stack.set(sp, nv);
                    proof {
                        assert(nv as int == ((v as int) + 255) % 256);
                    }
                },
                OpCode::PUTCHAR => {
                    let b = self.stack[sp];
                    output.push(b);
                    proof {
                        assert(output@.take(out0.len() as int) =~= out0);
                        assert(output@.skip(out0.len() as int) =~= cur.out.push(b));
                    }
                },
                OpCode::GETCHAR => {
                    if ip < input.len() {
                        let b = input[ip];
                        self.stack.set(sp, b);
                        ip = ip + 1;
                    } else {
                        proof {
                            assert(step(instrs, jt, input@, cur) is None);
                            assert(eval(instrs, jt, input@, cur, rem as nat + 1)
                                == EvalResult::Failed(cur));
                            assert(output@ =~= out0 + cur.out);
                        }
                        return Err(EngineError::InputExhausted);
                    }
                },
                OpCode::LB => {
                    if self.stack[sp] == 0 {
                        proof {
                            assert(instrs[pc as int] == OpCode::LB);
                            assert(jt.contains_key(pc));
                            assert(jt.contains_key(jt[pc]));
                        }
                        let j = *code.jtable.get(&pc).unwrap();
                        proof {
                            assert(j == jt[pc]);
                            assert(j < code_len);
                        }
                        pc = j;
                    }
                },
                OpCode::RB => {
                    if self.stack[sp] != 0 {
                        proof {
                            assert(instrs[pc as int] == OpCode::RB);
                            assert(jt.contains_key(pc));
                            assert(jt.contains_key(jt[pc]));
                        }
                        let j = *code.jtable.get(&pc).unwrap();
                        proof {
                            assert(j == jt[pc]);
                            assert(j < code_len);
                        }
                        pc = j;
                    }
                },
            }
            pc = pc + 1;
            proof {
                let nxt = VmState {
                    pc: pc as int,
                    tape: self.stack@,
                    cursor: sp as int,
                    in_pos: ip as int,
                    out: output@.skip(out0.len() as int),
                };
                assert(step(instrs, jt, input@, cur) == Some(nxt));
                assert(eval(instrs, jt, input@, cur, rem as nat + 1) == eval(
                    instrs,
                    jt,
                    input@,
                    nxt,
                    rem as nat,
                ));
            }
        }
    }
}

/// Wrapping arithmetic law: increment and decrement act on the current cell
/// modulo 256 and never touch anything else, so a cell holding 255 wraps to
/// 0 under increment and a cell holding 0 wraps to 255 under decrement.
pub proof fn lemma_cell_wrapping(
    instrs: Seq<OpCode>,
    jt: Map<usize, usize>,
    input: Seq<u8>,
    s: VmState,
)
    requires
        0 <= s.pc < instrs.len(),
        0 <= s.cursor < s.tape.len(),
        instrs[s.pc] == OpCode::ADD || instrs[s.pc] == OpCode::SUB,
    ensures
        (step(instrs, jt, input, s) matches Some(f) && f.tape.len() == s.tape.len() && f.cursor
            == s.cursor),
        (instrs[s.pc] == OpCode::ADD ==> (step(instrs, jt, input, s) matches Some(f)
            && f.tape[s.cursor] as int == ((s.tape[s.cursor] as int) + 1) % 256)),
        (instrs[s.pc] == OpCode::ADD && s.tape[s.cursor] == 255 ==> (step(instrs, jt, input, s)
            matches Some(f) && f.tape[s.cursor] == 0)),
        (instrs[s.pc] == OpCode::SUB ==> (step(instrs, jt, input, s) matches Some(f)
            && f.tape[s.cursor] as int == ((s.tape[s.cursor] as int) + 255) % 256)),
        (instrs[s.pc] == OpCode::SUB && s.tape[s.cursor] == 0 ==> (step(instrs, jt, input, s)
            matches Some(f) && f.tape[s.cursor] == 255)),
{
}

/// Boundary law: the cursor-left instruction at cursor 0 leaves the cursor
/// at 0 and changes nothing else of the machine but the instruction index.
pub proof fn lemma_cursor_left_clamped(
    instrs: Seq<OpCode>,
    jt: Map<usize, usize>,
    input: Seq<u8>,
    s: VmState,
)
    requires
        0 <= s.pc < instrs.len(),
        instrs[s.pc] == OpCode::SHL,
        s.cursor == 0,
    ensures
        (step(instrs, jt, input, s) matches Some(f) && f.cursor == 0 && f.tape == s.tape && f.out
            == s.out && f.in_pos == s.in_pos && f.pc == s.pc + 1),
{
}

/// Growth law: the cursor-right instruction moves the cursor one cell to the
/// right; when that steps past the current tape end the tape grows by
/// exactly one zero-valued cell, and otherwise it is unchanged.
pub proof fn lemma_cursor_right_grows(
    instrs: Seq<OpCode>,
    jt: Map<usize, usize>,
    input: Seq<u8>,
    s: VmState,
)
    requires
        0 <= s.pc < instrs.len(),
        0 <= s.cursor,
        instrs[s.pc] == OpCode::SHR,
    ensures
        (step(instrs, jt, input, s) matches Some(f) && f.cursor == s.cursor + 1),
        (s.cursor + 1 == s.tape.len() ==> (step(instrs, jt, input, s) matches Some(f) && f.tape
            == s.tape.push(0u8) && f.tape.len() == s.tape.len() + 1 && f.tape.last() == 0u8)),
        (s.cursor + 1 != s.tape.len() ==> (step(instrs, jt, input, s) matches Some(f) && f.tape
            == s.tape)),
{
}

} // verus!
