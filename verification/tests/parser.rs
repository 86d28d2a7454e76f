use provable_vm::program::LoadError;
use provable_vm::program::Opcode;
use provable_vm::program::parse_program;

fn lines(text: &[&str]) -> Vec<Vec<u8>> {
    text.iter().map(|l| l.as_bytes().to_vec()).collect()
}

#[test]
fn parses_a_simple_program() {
    let p = parse_program(&lines(&["PUSH 5", "PUSH 3", "ADD", "HALT"])).unwrap();
    assert_eq!(p.len(), 4);
    assert_eq!(p[0].opcode, Opcode::PUSH);
    assert_eq!(p[0].operand, Some(5));
    assert_eq!(p[1].operand, Some(3));
    assert_eq!(p[2].opcode, Opcode::ADD);
    assert_eq!(p[2].operand, None);
    assert_eq!(p[3].opcode, Opcode::HALT);
}

#[test]
fn parses_every_opcode_name() {
    let p = parse_program(&lines(&[
        "PUSH 1", "POP", "ADD", "SUB", "JMP 0", "JZ 0", "LOAD 2", "STORE 3", "HALT",
    ]))
    .unwrap();
    let ops: Vec<Opcode> = p.iter().map(|i| i.opcode).collect();
    assert_eq!(
        ops,
        vec![
            Opcode::PUSH,
            Opcode::POP,
            Opcode::ADD,
            Opcode::SUB,
            Opcode::JMP,
            Opcode::JZ,
            Opcode::LOAD,
            Opcode::STORE,
            Opcode::HALT,
        ]
    );
}

#[test]
fn skips_blank_lines_and_comments() {
    let p = parse_program(&lines(&["", "   ", "# a comment", "\t", "HALT"])).unwrap();
    assert_eq!(p.len(), 1);
    assert_eq!(p[0].opcode, Opcode::HALT);
}

#[test]
fn unknown_opcode_is_an_error_with_its_line() {
    let r = parse_program(&lines(&["HALT", "", "NOP"]));
    assert_eq!(r, Err(LoadError::UnknownOpcode { line: 2 }));
}

#[test]
fn malformed_operand_is_an_error() {
    let r = parse_program(&lines(&["PUSH 12x"]));
    assert_eq!(r, Err(LoadError::BadOperand { line: 0 }));
}

#[test]
fn operand_must_fit_32_bits() {
    assert_eq!(
        parse_program(&lines(&["PUSH 4294967296"])),
        Err(LoadError::BadOperand { line: 0 })
    );
    let p = parse_program(&lines(&["PUSH 4294967295"])).unwrap();
    assert_eq!(p[0].operand, Some(u32::MAX));
}

#[test]
fn leading_zeros_are_decimal() {
    let p = parse_program(&lines(&["PUSH 007"])).unwrap();
    assert_eq!(p[0].operand, Some(7));
    let p = parse_program(&lines(&["PUSH 0000000000000042"])).unwrap();
    assert_eq!(p[0].operand, Some(42));
}

#[test]
fn extra_whitespace_and_tokens_are_tolerated() {
    let p = parse_program(&lines(&["  PUSH \t 5   trailing junk"])).unwrap();
    assert_eq!(p.len(), 1);
    assert_eq!(p[0].opcode, Opcode::PUSH);
    assert_eq!(p[0].operand, Some(5));
}

#[test]
fn lowercase_names_are_unknown() {
    assert_eq!(
        parse_program(&lines(&["push 5"])),
        Err(LoadError::UnknownOpcode { line: 0 })
    );
}
