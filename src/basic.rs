use vstd::prelude::*;
use crate::cpu::CPUSpecs;
use crate::instruction::{Instruction, OperandError};
use crate::lexer::{number_of, parse_number};
use crate::text::chars_of;
use crate::token::{line_model, Token, TokenModel};

verus! {

/// The largest number of register operands that fit in a word beside the opcode byte.
pub const MAX_REGISTER_OPERANDS: usize = 7;

pub open spec fn pow256(n: nat) -> int
    decreases n,
{
    if n == 0 {
        1
    } else {
        256 * pow256((n - 1) as nat)
    }
}

/// The big-endian value of `bytes`, each taken as one byte.
pub open spec fn pack(bytes: Seq<int>) -> int
    decreases bytes.len(),
{
    if bytes.len() == 0 {
        0
    } else {
        pack(bytes.drop_last()) * 256 + bytes.last()
    }
}

/// The operands of a line: every token after the mnemonic.
pub open spec fn operands(line: Seq<TokenModel>) -> Seq<TokenModel> {
    if line.len() == 0 {
        seq![]
    } else {
        line.drop_first()
    }
}

/// The register indices named by `ops`, or why the first operand that is no register of
/// `cpu` fails.
pub open spec fn register_operands(ops: Seq<TokenModel>, cpu: CPUSpecs) -> Result<
    Seq<int>,
    OperandError,
>
    decreases ops.len(),
{
    if ops.len() == 0 {
        Ok(seq![])
    } else {
        match register_operands(ops.drop_last(), cpu) {
            Err(e) => Err(e),
            Ok(v) => match ops.last() {
                TokenModel::Register(name) => match number_of(name) {
                    Some(x) => if 0 <= x < cpu.spec_registers() {
                        Ok(v.push(x as int))
                    } else {
                        Err(OperandError::NoSuchRegister { position: (ops.len() - 1) as usize })
                    },
                    None => Err(OperandError::NoSuchRegister { position: (ops.len() - 1) as usize }),
                },
                _ => Err(OperandError::NotRegister { position: (ops.len() - 1) as usize }),
            },
        }
    }
}

/// An instruction that takes a fixed number of register operands. Its word holds the opcode
/// byte followed by one byte per register index, read as a big-endian number.
pub struct RegisterInstruction {
    mnemonic: String,
    description: String,
    opcode: u8,
    arity: usize,
}

impl RegisterInstruction {
    #[verifier::type_invariant]
    closed spec fn fits(self) -> bool {
        self.arity <= MAX_REGISTER_OPERANDS
    }

    pub closed spec fn spec_opcode(&self) -> u8 {
        self.opcode
    }

    pub closed spec fn spec_arity(&self) -> usize {
        self.arity
    }

    pub fn new(mnemonic: String, description: String, opcode: u8, arity: usize) -> (r: Self)
        requires
            arity <= MAX_REGISTER_OPERANDS,
        ensures
            r.spec_mnemonic() == mnemonic@,
            r.spec_description() == description@,
            r.spec_opcode() == opcode,
            r.spec_arity() == arity,
    {
        RegisterInstruction { mnemonic, description, opcode, arity }
    }
}

proof fn lemma_register_err_prefix(ops: Seq<TokenModel>, cpu: CPUSpecs, k: int)
    requires
        0 <= k <= ops.len(),
        register_operands(ops.take(k), cpu) is Err,
    ensures
        register_operands(ops, cpu) == register_operands(ops.take(k), cpu),
    decreases ops.len() - k,
{
    if k < ops.len() {
        assert(ops.take(k + 1).drop_last() =~= ops.take(k));
        lemma_register_err_prefix(ops, cpu, k + 1);
    } else {
        assert(ops.take(k) =~= ops);
    }
}

proof fn lemma_pow256_grows(n: nat)
    requires
        n <= 7,
    ensures
        1 <= pow256(n) <= 72057594037927936,
    decreases 7 - n,
{
    if n < 7 {
        lemma_pow256_grows(n + 1);
    } else {
        reveal_with_fuel(pow256, 8);
    }
}

impl Instruction for RegisterInstruction {
    closed spec fn spec_mnemonic(&self) -> Seq<char> {
        self.mnemonic@
    }

    closed spec fn spec_description(&self) -> Seq<char> {
        self.description@
    }

    /// A line with as many operands as the arity, each a register below the CPU's register
    /// count, gives `pack([opcode, index, ...])`.
    open spec fn spec_assemble(&self, line: Seq<TokenModel>, cpu: CPUSpecs) -> Result<u64, OperandError> {
        let ops = operands(line);
        if ops.len() != self.spec_arity() {
            Err(OperandError::Count { expected: self.spec_arity(), found: ops.len() as usize })
        } else {
            match register_operands(ops, cpu) {
                Err(e) => Err(e),
                Ok(v) => Ok(pack(seq![self.spec_opcode() as int] + v) as u64),
            }
        }
    }

    fn mnemonic(&self) -> (r: String) {
        self.mnemonic.clone()
    }

    fn description(&self) -> (r: String) {
        self.description.clone()
    }

    fn assemble(&self, line: &Vec<Token>, cpu: &CPUSpecs) -> (r: Result<u64, OperandError>) {
        proof {
            use_type_invariant(self);
        }
        let ghost lm = line_model(line@);
        let ghost ops = operands(lm);
        let found: usize = if line.len() == 0 { 0 } else { line.len() - 1 };
        assert(ops.len() == found);
        if found != self.arity {
            return Err(OperandError::Count { expected: self.arity, found });
        }
        let registers = cpu.registers();
        let mut word: u64 = self.opcode as u64;
        let ghost mut v: Seq<int> = seq![];
        let ghost head = seq![self.opcode as int];
        assert(pack(head) == self.opcode as int) by {
            assert(head.drop_last() =~= Seq::<int>::empty());
            assert(pack(Seq::<int>::empty()) == 0);
            assert(head.last() == self.opcode as int);
        }
        assert(pow256(1) == 256) by {
            assert(pow256(0) == 1);
        }
        assert(head + v =~= head);
        assert(ops.take(0) =~= seq![]);
        let mut k: usize = 0;
        while k < found
            invariant
                k <= found == ops.len() <= MAX_REGISTER_OPERANDS,
                found == self.spec_arity(),
                found + 1 == line@.len() || found == 0,
                lm == line_model(line@),
                ops == operands(lm),
                registers == cpu.spec_registers(),
                head == seq![self.opcode as int],
                register_operands(ops.take(k as int), *cpu) == Ok::<Seq<int>, OperandError>(v),
                v.len() == k,
                word as int == pack(head + v),
                word < pow256((k + 1) as nat),
            decreases found - k,
        {
            assert(ops.take(k + 1).drop_last() =~= ops.take(k as int));
            assert(ops[k as int] == line@[k + 1]@);
            assert(ops.take(k + 1).last() == ops[k as int]);
            match &line[k + 1] {
                Token::Register(name) => {
                    let chars = chars_of(name.as_str());
                    assert(ops[k as int] == TokenModel::Register(chars@));
                    match parse_number(&chars) {
                        Some(x) => {
                            if 0 <= x && x < registers as i64 {
                                proof {
                                    lemma_pow256_grows((k + 1) as nat);
                                }
                                let ghost before = head + v;
                                word = word * 256 + x as u64;
                                proof {
                                    v = v.push(x as int);
                                    assert((head + v).drop_last() =~= before);
                                }
                            } else {
                                proof {
                                    lemma_register_err_prefix(ops, *cpu, k + 1);
                                }
                                return Err(OperandError::NoSuchRegister { position: k });
                            }
                        },
                        None => {
                            proof {
                                lemma_register_err_prefix(ops, *cpu, k + 1);
                            }
                            return Err(OperandError::NoSuchRegister { position: k });
                        },
                    }
                },
                _ => {
                    proof {
                        lemma_register_err_prefix(ops, *cpu, k + 1);
                    }
                    return Err(OperandError::NotRegister { position: k });
                },
            }
            k += 1;
        }
        assert(ops.take(found as int) =~= ops);
        Ok(word)
    }
}

} // verus!
