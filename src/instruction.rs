use vstd::prelude::*;
use crate::cpu::CPUSpecs;
use crate::token::{line_model, Token, TokenModel};

verus! {

/// Why an instruction refused the operands of a line.
#[derive(Debug, Clone, Copy, PartialEq, Eq)]
pub enum OperandError {
    /// The line holds `found` operands where the instruction takes `expected`.
    Count { expected: usize, found: usize },
    /// The operand at `position` (the first operand is at 0) is not a register.
    NotRegister { position: usize },
    /// The operand at `position` names no register of the CPU.
    NoSuchRegister { position: usize },
}

/// One opcode of an instruction set: its mnemonic, a description, and its encoding.
///
/// `assemble` receives the whole matched line, mnemonic first, and the CPU description of
/// the instruction set, against which it checks its operands.
pub trait Instruction {
    spec fn spec_mnemonic(&self) -> Seq<char>;

    spec fn spec_description(&self) -> Seq<char>;

    spec fn spec_assemble(&self, line: Seq<TokenModel>, cpu: CPUSpecs) -> Result<u64, OperandError>;

    fn mnemonic(&self) -> (r: String)
        ensures
            r@ == self.spec_mnemonic(),
    ;

    fn description(&self) -> (r: String)
        ensures
            r@ == self.spec_description(),
    ;

    fn assemble(&self, line: &Vec<Token>, cpu: &CPUSpecs) -> (r: Result<u64, OperandError>)
        ensures
            r == self.spec_assemble(line_model(line@), *cpu),
    ;
}

} // verus!
