use vstd::prelude::*;
use crate::cpu::CPUSpecs;
use crate::instruction::{Instruction, OperandError};
use crate::token::{line_model, Token, TokenModel};

verus! {

/// Why a line could not be assembled.
#[derive(Debug, PartialEq, Eq)]
pub enum AssembleError {
    /// No registered instruction has this mnemonic.
    UnknownMnemonic(String),
    /// The matched instruction refused the line's operands.
    Operand(OperandError),
}

/// The mnemonics of `instructions`, in order.
pub open spec fn mnemonics(instructions: Seq<Box<dyn Instruction>>) -> Seq<Seq<char>> {
    instructions.map_values(|i: Box<dyn Instruction>| i.spec_mnemonic())
}

/// The index of the first of `names` equal to `m`, if any.
pub open spec fn first_match(names: Seq<Seq<char>>, m: Seq<char>) -> Option<int>
    decreases names.len(),
{
    if names.len() == 0 {
        None
    } else {
        match first_match(names.drop_last(), m) {
            Some(i) => Some(i),
            None => if names.last() == m {
                Some(names.len() - 1)
            } else {
                None
            },
        }
    }
}

/// What assembling `line` gives: `None` where its mnemonic is not registered, else the
/// outcome of the first instruction registered under it.
pub open spec fn assembled(
    instructions: Seq<Box<dyn Instruction>>,
    cpu: CPUSpecs,
    line: Seq<TokenModel>,
) -> Option<Result<u64, OperandError>> {
    match first_match(mnemonics(instructions), line[0]->Mnemonic_0) {
        None => None,
        Some(i) => Some(instructions[i].spec_assemble(line, cpu)),
    }
}

/// `first_match` picks `i` when `names[i]` is the first name equal to `m`.
pub proof fn lemma_first_match_is_first(names: Seq<Seq<char>>, m: Seq<char>, i: int)
    requires
        0 <= i < names.len(),
        names[i] == m,
        forall|j: int| 0 <= j < i ==> names[j] != m,
    ensures
        first_match(names, m) == Some(i),
    decreases names.len(),
{
    if i < names.len() - 1 {
        lemma_first_match_is_first(names.drop_last(), m, i);
    } else {
        lemma_first_match_none(names.drop_last(), m);
    }
}

/// What `first_match` returns is the first index whose name equals `m`.
pub proof fn lemma_first_match_found(names: Seq<Seq<char>>, m: Seq<char>)
    ensures
        first_match(names, m) matches Some(i) ==> 0 <= i < names.len() && names[i] == m
            && forall|j: int| 0 <= j < i ==> names[j] != m,
        first_match(names, m) is None ==> forall|j: int| 0 <= j < names.len() ==> names[j] != m,
    decreases names.len(),
{
    if names.len() > 0 {
        lemma_first_match_found(names.drop_last(), m);
        assert forall|j: int| 0 <= j < names.len() - 1 implies names[j] == names.drop_last()[j] by {}
    }
}

/// `first_match` finds nothing when no name equals `m`.
pub proof fn lemma_first_match_none(names: Seq<Seq<char>>, m: Seq<char>)
    requires
        forall|j: int| 0 <= j < names.len() ==> names[j] != m,
    ensures
        first_match(names, m) is None,
    decreases names.len(),
{
    if names.len() > 0 {
        lemma_first_match_none(names.drop_last(), m);
    }
}

/// Of two instructions registered under one mnemonic, the earlier one is never passed over
/// for the later: the line goes to the first instruction under that mnemonic, at or before `i`.
pub proof fn first_registered_wins(
    instructions: Seq<Box<dyn Instruction>>,
    cpu: CPUSpecs,
    line: Seq<TokenModel>,
    i: int,
    j: int,
)
    requires
        0 <= i < j < instructions.len(),
        line.len() > 0,
        line[0] is Mnemonic,
        instructions[i].spec_mnemonic() == line[0]->Mnemonic_0,
        instructions[j].spec_mnemonic() == line[0]->Mnemonic_0,
    ensures
        first_match(mnemonics(instructions), line[0]->Mnemonic_0) matches Some(k) && k <= i
            && assembled(instructions, cpu, line) == Some(instructions[k].spec_assemble(line, cpu)),
{
    let names = mnemonics(instructions);
    let m = line[0]->Mnemonic_0;
    lemma_first_match_found(names, m);
    assert(names[i] == m);
}

/// Assembling depends only on the registered instructions, their order, the CPU and the
/// line: two instruction sets that agree on these assemble the line alike, every time.
pub proof fn assembling_is_deterministic(
    a: Instructionset,
    b: Instructionset,
    line_a: Seq<TokenModel>,
    line_b: Seq<TokenModel>,
)
    requires
        a.spec_instructions() == b.spec_instructions(),
        a.spec_cpu() == b.spec_cpu(),
        line_a == line_b,
    ensures
        assembled(a.spec_instructions(), a.spec_cpu(), line_a) == assembled(
            b.spec_instructions(),
            b.spec_cpu(),
            line_b,
        ),
{
}

/// A line whose mnemonic no instruction has is not assembled.
pub proof fn unknown_mnemonic_is_refused(
    instructions: Seq<Box<dyn Instruction>>,
    cpu: CPUSpecs,
    line: Seq<TokenModel>,
)
    requires
        line.len() > 0,
        line[0] is Mnemonic,
        forall|k: int| 0 <= k < instructions.len() ==> #[trigger] instructions[k].spec_mnemonic() != line[0]->Mnemonic_0,
    ensures
        assembled(instructions, cpu, line) is None,
{
    let names = mnemonics(instructions);
    assert forall|k: int| 0 <= k < names.len() implies names[k] != line[0]->Mnemonic_0 by {
        assert(names[k] == instructions[k].spec_mnemonic());
    }
    lemma_first_match_none(names, line[0]->Mnemonic_0);
}

/// An instruction set: ordered instructions and the CPU they target.
pub struct Instructionset {
    cpu: CPUSpecs,
    instructions: Vec<Box<dyn Instruction>>,
}

impl Instructionset {
    pub closed spec fn spec_cpu(&self) -> CPUSpecs {
        self.cpu
    }

    pub closed spec fn spec_instructions(&self) -> Seq<Box<dyn Instruction>> {
        self.instructions@
    }

    pub fn new(instructions: Vec<Box<dyn Instruction>>, cpu: CPUSpecs) -> (r: Self)
        ensures
            r.spec_instructions() == instructions@,
            r.spec_cpu() == cpu,
    {
        Instructionset { instructions, cpu }
    }

    /// The CPU that the instructions target.
    pub fn cpu(&self) -> (r: &CPUSpecs)
        ensures
            *r == self.spec_cpu(),
    {
        &self.cpu
    }

    /// The number of registered instructions.
    pub fn len(&self) -> (r: usize)
        ensures
            r == self.spec_instructions().len(),
    {
        self.instructions.len()
    }

    /// The index of the first instruction registered under `mnemonic`.
    pub fn resolve(&self, mnemonic: &String) -> (r: Option<usize>)
        ensures
            r matches Some(i) ==> first_match(mnemonics(self.spec_instructions()), mnemonic@)
                == Some(i as int) && i < self.spec_instructions().len(),
            r is None ==> first_match(mnemonics(self.spec_instructions()), mnemonic@) is None,
    {
        let ghost names = mnemonics(self.instructions@);
        let mut i: usize = 0;
        while i < self.instructions.len()
            invariant
                i <= self.instructions@.len(),
                names == mnemonics(self.instructions@),
                forall|j: int| 0 <= j < i ==> names[j] != mnemonic@,
            decreases self.instructions.len() - i,
        {
            let name = self.instructions[i].mnemonic();
            if name == *mnemonic {
                proof {
                    lemma_first_match_is_first(names, mnemonic@, i as int);
                }
                return Some(i);
            }
            i += 1;
        }
        proof {
            lemma_first_match_none(names, mnemonic@);
        }
        None
    }

    /// Encodes one line: the first instruction registered under the line's mnemonic
    /// assembles it; a mnemonic that is not registered is an error.
    pub fn assemble_instruction(&self, tokens: &Vec<Token>) -> (r: Result<u64, AssembleError>)
        requires
            tokens@.len() > 0,
            tokens@[0] is Mnemonic,
        ensures
            match assembled(self.spec_instructions(), self.spec_cpu(), line_model(tokens@)) {
                None => r matches Err(AssembleError::UnknownMnemonic(m)) && m@ == line_model(
                    tokens@,
                )[0]->Mnemonic_0,
                Some(Ok(w)) => r == Ok::<u64, AssembleError>(w),
                Some(Err(e)) => r == Err::<u64, AssembleError>(AssembleError::Operand(e)),
            },
    {
        let mnemonic = match &tokens[0] {
            Token::Mnemonic(m) => m,
            _ => vstd::pervasive::unreached(),
        };
        match self.resolve(mnemonic) {
            None => Err(AssembleError::UnknownMnemonic(mnemonic.clone())),
            Some(i) => match self.instructions[i].assemble(tokens, &self.cpu) {
                Ok(w) => Ok(w),
                Err(e) => Err(AssembleError::Operand(e)),
            },
        }
    }
}

} // verus!
