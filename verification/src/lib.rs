pub mod opcode;
pub mod interpreter;
