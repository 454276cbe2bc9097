pub mod basic;
pub mod cpu;
pub mod instruction;
pub mod lexer;
pub mod program;
pub mod registry;
mod text;
pub mod token;

pub use basic::RegisterInstruction;
pub use cpu::CPUSpecs;
pub use instruction::{Instruction, OperandError};
pub use lexer::{tokenize_line, LexError};
pub use program::Program;
pub use registry::{AssembleError, Instructionset};
pub use token::{Token, TokenModel};
