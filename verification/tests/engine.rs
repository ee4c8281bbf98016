use tapevm::interpreter::{Interpreter, RunStatus};
use tapevm::opcode::{Code, EngineError, OpCode};

const FUEL: u64 = 1_000_000;

#[test]
fn opcode_bytes_round_trip() {
    let ops = [
        OpCode::SHR,
        OpCode::SHL,
        OpCode::ADD,
        OpCode::SUB,
        OpCode::PUTCHAR,
        OpCode::GETCHAR,
        OpCode::LB,
        OpCode::RB,
    ];
    for op in ops {
        assert_eq!(OpCode::from_byte(op.to_byte()), Some(op));
    }
    assert_eq!(OpCode::from_byte(b'x'), None);
    assert_eq!(OpCode::from_byte(b' '), None);
    assert_eq!(OpCode::from_byte(b'\n'), None);
}

#[test]
fn compile_filters_comment_bytes() {
    let code = Code::from(b"a + b . c".to_vec()).unwrap();
    assert_eq!(code.instrs, vec![OpCode::ADD, OpCode::PUTCHAR]);
    assert!(code.jtable.is_empty());
}

#[test]
fn compile_builds_symmetric_jump_table() {
    // indices:      0  1  2  3
    let code = Code::from(b"[[]]".to_vec()).unwrap();
    assert_eq!(code.instrs.len(), 4);
    assert_eq!(code.jtable.get(&0), Some(&3));
    assert_eq!(code.jtable.get(&3), Some(&0));
    assert_eq!(code.jtable.get(&1), Some(&2));
    assert_eq!(code.jtable.get(&2), Some(&1));
}

#[test]
fn compile_nested_pairs_do_not_straddle() {
    // indices:      01234567
    let code = Code::from(b"[[][[]]]".to_vec()).unwrap();
    assert_eq!(code.jtable.get(&0), Some(&7));
    assert_eq!(code.jtable.get(&1), Some(&2));
    assert_eq!(code.jtable.get(&3), Some(&6));
    assert_eq!(code.jtable.get(&4), Some(&5));
}

#[test]
fn compile_rejects_close_without_open() {
    assert_eq!(Code::from(b"]".to_vec()).err(), Some(EngineError::UnbalancedBrackets));
    assert_eq!(Code::from(b"+]+".to_vec()).err(), Some(EngineError::UnbalancedBrackets));
    assert_eq!(Code::from(b"[]]".to_vec()).err(), Some(EngineError::UnbalancedBrackets));
}

#[test]
fn compile_rejects_open_without_close() {
    assert_eq!(Code::from(b"[".to_vec()).err(), Some(EngineError::UnbalancedBrackets));
    assert_eq!(Code::from(b"[[]".to_vec()).err(), Some(EngineError::UnbalancedBrackets));
}

#[test]
fn compile_is_deterministic() {
    let src = b"++[>+<-]>.".to_vec();
    let a = Code::from(src.clone()).unwrap();
    let b = Code::from(src).unwrap();
    assert_eq!(a.instrs, b.instrs);
    assert_eq!(a.jtable, b.jtable);
}

#[test]
fn run_three_increments_outputs_three() {
    let mut vm = Interpreter::default();
    let mut out: Vec<u8> = Vec::new();
    let r = vm.run(b"+++.".to_vec(), &Vec::new(), &mut out, FUEL);
    assert_eq!(r, Ok(RunStatus::Halted));
    assert_eq!(out, vec![3]);
}

#[test]
fn run_input_passthrough() {
    let mut vm = Interpreter::default();
    let mut out: Vec<u8> = Vec::new();
    let r = vm.run(b",.".to_vec(), &vec![65], &mut out, FUEL);
    assert_eq!(r, Ok(RunStatus::Halted));
    assert_eq!(out, vec![65]);
}

#[test]
fn run_drain_loop_terminates_at_zero() {
    let mut vm = Interpreter::default();
    vm.stack = vec![7];
    let mut out: Vec<u8> = Vec::new();
    let r = vm.run(b"[-]".to_vec(), &Vec::new(), &mut out, FUEL);
    assert_eq!(r, Ok(RunStatus::Halted));
    assert_eq!(vm.stack[0], 0);
    assert!(out.is_empty());
}

#[test]
fn run_outputs_original_cell_not_neighbor() {
    let mut vm = Interpreter::default();
    let mut out: Vec<u8> = Vec::new();
    let r = vm.run(b">+<.".to_vec(), &Vec::new(), &mut out, FUEL);
    assert_eq!(r, Ok(RunStatus::Halted));
    assert_eq!(out, vec![0]);
}

#[test]
fn run_increment_wraps_255_to_zero() {
    let mut vm = Interpreter::default();
    vm.stack = vec![255];
    let mut out: Vec<u8> = Vec::new();
    let r = vm.run(b"+.".to_vec(), &Vec::new(), &mut out, FUEL);
    assert_eq!(r, Ok(RunStatus::Halted));
    assert_eq!(out, vec![0]);
}

#[test]
fn run_decrement_wraps_zero_to_255() {
    let mut vm = Interpreter::default();
    let mut out: Vec<u8> = Vec::new();
    let r = vm.run(b"-.".to_vec(), &Vec::new(), &mut out, FUEL);
    assert_eq!(r, Ok(RunStatus::Halted));
    assert_eq!(out, vec![255]);
}

#[test]
fn run_cursor_left_clamps_at_origin() {
    let mut vm = Interpreter::default();
    vm.stack = vec![5];
    let mut out: Vec<u8> = Vec::new();
    let r = vm.run(b"<<.".to_vec(), &Vec::new(), &mut out, FUEL);
    assert_eq!(r, Ok(RunStatus::Halted));
    assert_eq!(out, vec![5]);
    assert_eq!(vm.stack, vec![5]);
}

#[test]
fn run_cursor_right_grows_one_zero_cell_per_step() {
    let mut vm = Interpreter::default();
    let mut out: Vec<u8> = Vec::new();
    let r = vm.run(b">>>.".to_vec(), &Vec::new(), &mut out, FUEL);
    assert_eq!(r, Ok(RunStatus::Halted));
    assert_eq!(out, vec![0]);
    assert_eq!(vm.stack, vec![0, 0, 0, 0]);
}

#[test]
fn run_fails_when_input_is_exhausted() {
    let mut vm = Interpreter::default();
    let mut out: Vec<u8> = Vec::new();
    let r = vm.run(b",".to_vec(), &Vec::new(), &mut out, FUEL);
    assert_eq!(r, Err(EngineError::InputExhausted));
}

#[test]
fn run_keeps_output_written_before_failure() {
    let mut vm = Interpreter::default();
    let mut out: Vec<u8> = Vec::new();
    let r = vm.run(b".,".to_vec(), &Vec::new(), &mut out, FUEL);
    assert_eq!(r, Err(EngineError::InputExhausted));
    assert_eq!(out, vec![0]);
}

#[test]
fn run_rejects_unbalanced_source_before_executing() {
    let mut vm = Interpreter::default();
    let mut out: Vec<u8> = Vec::new();
    let r = vm.run(b".]".to_vec(), &Vec::new(), &mut out, FUEL);
    assert_eq!(r, Err(EngineError::UnbalancedBrackets));
    assert!(out.is_empty());
    assert_eq!(vm.stack, vec![0]);
}

#[test]
fn run_reports_running_when_fuel_runs_out() {
    let mut vm = Interpreter::default();
    let mut out: Vec<u8> = Vec::new();
    let r = vm.run(b"+[]".to_vec(), &Vec::new(), &mut out, 10);
    assert_eq!(r, Ok(RunStatus::Running));
}

#[test]
fn run_copy_loop_moves_value() {
    let mut vm = Interpreter::default();
    let mut out: Vec<u8> = Vec::new();
    let r = vm.run(b"++[>+<-]>.".to_vec(), &Vec::new(), &mut out, FUEL);
    assert_eq!(r, Ok(RunStatus::Halted));
    assert_eq!(out, vec![2]);
    assert_eq!(vm.stack, vec![0, 2]);
}
