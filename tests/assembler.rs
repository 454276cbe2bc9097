use asmcore::{
    tokenize_line, AssembleError, CPUSpecs, Instruction, Instructionset, LexError, OperandError,
    Program, RegisterInstruction, Token,
};

fn reg(name: &str) -> Token {
    Token::Register(name.to_string())
}

fn mnem(name: &str) -> Token {
    Token::Mnemonic(name.to_string())
}

fn register_op(name: &str, opcode: u8, arity: usize) -> Box<dyn Instruction> {
    Box::new(RegisterInstruction::new(
        name.to_string(),
        format!("{} with {} register operands", name, arity),
        opcode,
        arity,
    ))
}

#[test]
fn program_of_two_lines_around_a_comment() {
    let program = Program::from_source("ADD %1 %2\n// comment\nSUB %3 5").unwrap();
    assert_eq!(
        program.lines(),
        &vec![
            vec![mnem("ADD"), reg("1"), reg("2")],
            vec![mnem("SUB"), reg("3"), Token::Number(5)],
        ]
    );
    let set = Instructionset::new(
        vec![register_op("ADD", 0x01, 2), register_op("SUB", 0x02, 2)],
        CPUSpecs::new(4, 1024, 1024),
    );
    assert_eq!(set.assemble_instruction(&program.lines()[0]), Ok(0x01_01_02));
    assert_eq!(
        set.assemble_instruction(&program.lines()[1]),
        Err(AssembleError::Operand(OperandError::NotRegister { position: 1 }))
    );
}

#[test]
fn program_of_only_comments_is_empty() {
    let program = Program::from_source("\n\n// only comments\n").unwrap();
    assert!(program.lines().is_empty());
}

#[test]
fn integer_beyond_64_bits_is_a_lexical_error() {
    let err = Program::from_source("MOV %0 99999999999999999999").err().unwrap();
    assert_eq!(
        err,
        LexError {
            line: "MOV %0 99999999999999999999".to_string(),
            fragment: "99999999999999999999".to_string(),
        }
    );
}

#[test]
fn unregistered_mnemonic_is_refused() {
    let set = Instructionset::new(vec![register_op("MOV", 0x10, 1)], CPUSpecs::new(4, 64, 64));
    assert_eq!(
        set.assemble_instruction(&vec![mnem("JMP")]),
        Err(AssembleError::UnknownMnemonic("JMP".to_string()))
    );
}

#[test]
fn register_beyond_cpu_is_refused() {
    let set = Instructionset::new(vec![register_op("MOV", 0x10, 1)], CPUSpecs::new(4, 64, 64));
    assert_eq!(
        set.assemble_instruction(&vec![mnem("MOV"), reg("7")]),
        Err(AssembleError::Operand(OperandError::NoSuchRegister { position: 0 }))
    );
    assert_eq!(set.assemble_instruction(&vec![mnem("MOV"), reg("3")]), Ok(0x10_03));
}

#[test]
fn whitespace_line_has_no_tokens() {
    assert_eq!(tokenize_line(""), Ok(vec![]));
    assert_eq!(tokenize_line(" \t \r \x0C "), Ok(vec![]));
}

#[test]
fn comment_line_has_no_tokens() {
    assert_eq!(tokenize_line("   //foo bar baz"), Ok(vec![]));
    assert_eq!(tokenize_line("//"), Ok(vec![]));
    assert_eq!(tokenize_line("// not a number: x"), Ok(vec![]));
}

#[test]
fn single_slash_is_a_mnemonic() {
    assert_eq!(tokenize_line("/ 1"), Ok(vec![mnem("/"), Token::Number(1)]));
}

#[test]
fn percent_fragment_is_a_register() {
    assert_eq!(
        tokenize_line("LD %r2 % %%"),
        Ok(vec![mnem("LD"), reg("r2"), reg(""), reg("%")])
    );
}

#[test]
fn integer_fragments_are_numbers() {
    assert_eq!(
        tokenize_line("SET 42 +7 -0 -9223372036854775808 9223372036854775807"),
        Ok(vec![
            mnem("SET"),
            Token::Number(42),
            Token::Number(7),
            Token::Number(0),
            Token::Number(i64::MIN),
            Token::Number(i64::MAX),
        ])
    );
}

#[test]
fn first_fragment_is_always_the_mnemonic() {
    assert_eq!(tokenize_line("  123 %1\t4 "), Ok(vec![mnem("123"), reg("1"), Token::Number(4)]));
}

#[test]
fn other_operand_fragments_are_lexical_errors() {
    for (line, fragment) in [
        ("ADD foo", "foo"),
        ("ADD 1 2x 3", "2x"),
        ("ADD -", "-"),
        ("ADD +", "+"),
        ("ADD 9223372036854775808", "9223372036854775808"),
        ("ADD -9223372036854775809", "-9223372036854775809"),
        ("ADD 1 //c", "//c"),
    ] {
        assert_eq!(
            tokenize_line(line),
            Err(LexError { line: line.to_string(), fragment: fragment.to_string() })
        );
    }
}

#[test]
fn program_keeps_source_order() {
    let program = Program::from_source("A 1\n\nB 2\r\n  // c\nC 3\n").unwrap();
    assert_eq!(
        program.lines(),
        &vec![
            vec![mnem("A"), Token::Number(1)],
            vec![mnem("B"), Token::Number(2)],
            vec![mnem("C"), Token::Number(3)],
        ]
    );
}

#[test]
fn program_fails_on_first_bad_line() {
    let err = Program::from_source("A 1\nB x\nC y").err().unwrap();
    assert_eq!(err, LexError { line: "B x".to_string(), fragment: "x".to_string() });
}

#[test]
fn program_new_keeps_lines() {
    let lines = vec![vec![mnem("NOP")], vec![mnem("INC"), reg("0")]];
    let program = Program::new(vec![vec![mnem("NOP")], vec![mnem("INC"), reg("0")]]);
    assert_eq!(program.lines(), &lines);
}

#[test]
fn first_registered_instruction_wins() {
    let set = Instructionset::new(
        vec![register_op("NOP", 0x00, 0), register_op("DUP", 0x20, 0), register_op("DUP", 0x30, 0)],
        CPUSpecs::new(8, 0, 0),
    );
    assert_eq!(set.resolve(&"DUP".to_string()), Some(1));
    assert_eq!(set.resolve(&"dup".to_string()), None);
    assert_eq!(set.assemble_instruction(&vec![mnem("DUP")]), Ok(0x20));
}

#[test]
fn unknown_mnemonic_in_empty_set() {
    let set = Instructionset::new(vec![], CPUSpecs::new(8, 0, 0));
    assert_eq!(
        set.assemble_instruction(&vec![mnem("ADD"), reg("1")]),
        Err(AssembleError::UnknownMnemonic("ADD".to_string()))
    );
}

#[test]
fn operand_count_is_checked() {
    let set = Instructionset::new(vec![register_op("MOV", 0x10, 2)], CPUSpecs::new(4, 64, 64));
    assert_eq!(
        set.assemble_instruction(&vec![mnem("MOV"), reg("1")]),
        Err(AssembleError::Operand(OperandError::Count { expected: 2, found: 1 }))
    );
}

#[test]
fn operand_kinds_are_checked() {
    let set = Instructionset::new(vec![register_op("MOV", 0x10, 2)], CPUSpecs::new(4, 64, 64));
    assert_eq!(
        set.assemble_instruction(&vec![mnem("MOV"), reg("1"), Token::Number(2)]),
        Err(AssembleError::Operand(OperandError::NotRegister { position: 1 }))
    );
    assert_eq!(
        set.assemble_instruction(&vec![mnem("MOV"), reg("r1"), reg("2")]),
        Err(AssembleError::Operand(OperandError::NoSuchRegister { position: 0 }))
    );
}

#[test]
fn widest_register_instruction_fills_the_word() {
    let set = Instructionset::new(vec![register_op("WIDE", 0xFF, 7)], CPUSpecs::new(255, 0, 0));
    let line = tokenize_line("WIDE %254 %254 %254 %254 %254 %254 %1").unwrap();
    assert_eq!(set.assemble_instruction(&line), Ok(0xFF_FE_FE_FE_FE_FE_FE_01));
}

#[test]
fn instruction_reports_its_names() {
    let instruction = RegisterInstruction::new("ADD".to_string(), "add two".to_string(), 1, 2);
    assert_eq!(instruction.mnemonic(), "ADD");
    assert_eq!(instruction.description(), "add two");
    let cpu = CPUSpecs::new(4, 0, 0);
    assert_eq!(
        instruction.assemble(&vec![mnem("ADD"), reg("0"), reg("3")], &cpu),
        Ok(0x01_00_03)
    );
}

#[test]
fn cpu_specs_keep_their_values() {
    let cpu = CPUSpecs::new(16, 65536, 4096);
    assert_eq!(cpu.registers(), 16);
    assert_eq!(cpu.ram(), 65536);
    assert_eq!(cpu.rom(), 4096);
}

#[test]
fn instruction_set_keeps_cpu_and_instructions() {
    let set = Instructionset::new(
        vec![register_op("ADD", 0x01, 2), register_op("SUB", 0x02, 2)],
        CPUSpecs::new(4, 1024, 512),
    );
    assert_eq!(set.len(), 2);
    assert_eq!(set.cpu(), &CPUSpecs::new(4, 1024, 512));
    assert_eq!(set.resolve(&"SUB".to_string()), Some(1));
}

#[test]
fn crlf_and_lf_breaks_agree() {
    let lf = "A 1\nB x\nC 3";
    let crlf = "A 1\r\nB x\r\nC 3";
    let expected = LexError { line: "B x".to_string(), fragment: "x".to_string() };
    assert_eq!(Program::from_source(lf).err().unwrap(), expected);
    assert_eq!(Program::from_source(crlf).err().unwrap(), expected);
    let ok_lf = Program::from_source("A 1\nB %2\n").unwrap();
    let ok_crlf = Program::from_source("A 1\r\nB %2\r\n").unwrap();
    assert_eq!(ok_lf.lines(), ok_crlf.lines());
}

#[test]
fn bare_carriage_return_stays_in_the_last_line() {
    let err = Program::from_source("A 1\r\nB x\r").err().unwrap();
    assert_eq!(err, LexError { line: "B x\r".to_string(), fragment: "x".to_string() });
}
