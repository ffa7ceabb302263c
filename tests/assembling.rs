use rvsim::assembler::{get_info, words_to_bytes, AsmError, Assembler, EBREAK};
use rvsim::instruction::{BInstruction, IInstruction, InstructionType, RInstruction, SInstruction};

fn chars(s: &str) -> Vec<char> {
    s.chars().collect()
}

#[test]
fn assembles_the_add_program() {
    let a = Assembler::from_source("addi x1, x0, 5\naddi x2, x0, 7\nadd x3, x1, x2\nebreak\n");
    let words = a.assemble().unwrap();
    assert_eq!(words, vec![0x00500093, 0x00700113, 0x002081B3, EBREAK]);
    assert_eq!(EBREAK, 0x00100073);
}

#[test]
fn program_lines_drop_comments_blanks_and_labels() {
    let src = "# heading\n\nstart:\n  addi x1, x0, 1 # one\r\nloop: \n\tadd x2, x1, x1\n   \n";
    let a = Assembler::from_source(src);
    let lines: Vec<String> = a.view_program().clone();
    assert_eq!(lines, vec!["  addi x1, x0, 1 ".to_string(), "\tadd x2, x1, x1".to_string()]);
}

#[test]
fn empty_source_assembles_to_nothing() {
    let a = Assembler::from_source("");
    assert!(a.view_program().is_empty());
    assert_eq!(a.assemble(), Ok(vec![]));
}

#[test]
fn halt_ends_assembly() {
    let a = Assembler::from_source("ebreak\nnot an instruction\n");
    assert_eq!(a.assemble(), Ok(vec![EBREAK]));
}

#[test]
fn unknown_mnemonic_is_fatal() {
    let a = Assembler::from_source("addi x1, x0, 1\nmul x1, x2, x3\naddi x2, x0, 2\n");
    assert_eq!(a.assemble(), Err(AsmError::UnknownMnemonic(1)));
    let a = Assembler::from_source("jal x1, 8\n");
    assert_eq!(a.assemble(), Err(AsmError::UnknownMnemonic(0)));
}

#[test]
fn wrong_operand_count_is_malformed() {
    assert_eq!(
        Assembler::from_source("add x1, x2\n").assemble(),
        Err(AsmError::MalformedInstruction(0))
    );
    assert_eq!(
        Assembler::from_source("addi x1, x0, 1, 2\n").assemble(),
        Err(AsmError::MalformedInstruction(0))
    );
}

#[test]
fn non_register_operand_is_malformed() {
    assert_eq!(
        Assembler::from_source("add x1, x2, 3\n").assemble(),
        Err(AsmError::MalformedInstruction(0))
    );
    assert_eq!(
        Assembler::from_source("beq x1, x2, nowhere\n").assemble(),
        Err(AsmError::MalformedInstruction(0))
    );
}

#[test]
fn register_out_of_range_is_rejected() {
    assert_eq!(
        Assembler::from_source("add x1, x2, x32\n").assemble(),
        Err(AsmError::InvalidRegister(0))
    );
    assert_eq!(
        Assembler::from_source("addi x1, x0, 1\naddi x40, x0, 1\n").assemble(),
        Err(AsmError::InvalidRegister(1))
    );
}

#[test]
fn immediate_range_is_checked() {
    assert_eq!(
        Assembler::from_source("addi x1, x0, 2048\n").assemble(),
        Err(AsmError::ImmediateOutOfRange(0))
    );
    assert_eq!(
        Assembler::from_source("addi x1, x0, -2049\n").assemble(),
        Err(AsmError::ImmediateOutOfRange(0))
    );
    assert_eq!(
        Assembler::from_source("addi x1, x0, 99999999999999\n").assemble(),
        Err(AsmError::ImmediateOutOfRange(0))
    );
    let words = Assembler::from_source("addi x1, x0, 2047\naddi x1, x0, -2048\n")
        .assemble()
        .unwrap();
    assert_eq!(IInstruction::new(words[0]).imm, 2047);
    assert_eq!(IInstruction::new(words[1]).imm, -2048);
}

#[test]
fn memory_form_is_reordered() {
    let words = Assembler::from_source("sw x2, 0(x1)\nlw x3, 0(x1)\nsw x9, -4(x10)\n")
        .assemble()
        .unwrap();
    assert_eq!(words, vec![0x0020A023, 0x0000A183, 0xFE952E23]);
    let s = SInstruction::new(words[2]);
    assert_eq!((s.rs1, s.rs2, s.imm), (10, 9, -4));
}

#[test]
fn label_resolves_to_instruction_offset() {
    // label before instruction 3, referenced from instruction 0 and 4
    let src = "beq x0, x0, end\naddi x1, x0, 1\naddi x1, x0, 2\nend:\naddi x2, x0, 3\nbne x1, x2, end\n";
    let words = Assembler::from_source(src).assemble().unwrap();
    assert_eq!(BInstruction::new(words[0]).imm, 12);
    assert_eq!(BInstruction::new(words[4]).imm, -4);
    assert_eq!(words[0], 0x00000663);
}

#[test]
fn later_label_declaration_wins() {
    let src = "a:\naddi x1, x0, 1\na:\nbeq x0, x0, a\n";
    let words = Assembler::from_source(src).assemble().unwrap();
    assert_eq!(BInstruction::new(words[1]).imm, 0);
}

#[test]
fn every_mnemonic_round_trips() {
    let src = "add x1, x2, x3\nsub x4, x5, x6\nxor x7, x8, x9\nor x10, x11, x12\n\
               and x13, x14, x15\nsll x16, x17, x18\nsrl x19, x20, x21\nsra x22, x23, x24\n\
               addi x25, x26, -7\nxori x27, x28, 100\nori x29, x30, -2048\nandi x31, x0, 2047\n\
               beq x1, x2, -16\nbne x3, x4, 8\nblt x5, x6, 2044\nbge x7, x8, -2048\n\
               sw x9, 12(x10)\nlw x11, -8(x12)\n";
    let words = Assembler::from_source(src).assemble().unwrap();
    assert_eq!(words.len(), 18);
    let r = [
        (1, 2, 3, 0, 0),
        (4, 5, 6, 0, 0x20),
        (7, 8, 9, 4, 0),
        (10, 11, 12, 6, 0),
        (13, 14, 15, 7, 0),
        (16, 17, 18, 1, 0),
        (19, 20, 21, 5, 0),
        (22, 23, 24, 5, 0x20),
    ];
    for (k, (rd, rs1, rs2, f3, f7)) in r.iter().enumerate() {
        let ins = RInstruction::new(words[k]);
        assert_eq!(
            (ins.opcode, ins.rd, ins.rs1, ins.rs2, ins.funct3, ins.funct7),
            (0x33, *rd, *rs1, *rs2, *f3, *f7)
        );
    }
    let i = [(25, 26, -7, 0), (27, 28, 100, 4), (29, 30, -2048, 6), (31, 0, 2047, 7)];
    for (k, (rd, rs1, imm, f3)) in i.iter().enumerate() {
        let ins = IInstruction::new(words[8 + k]);
        assert_eq!((ins.opcode, ins.rd, ins.rs1, ins.imm, ins.funct3), (0x13, *rd, *rs1, *imm, *f3));
    }
    let b = [(1, 2, -16, 0), (3, 4, 8, 1), (5, 6, 2044, 4), (7, 8, -2048, 5)];
    for (k, (rs1, rs2, imm, f3)) in b.iter().enumerate() {
        let ins = BInstruction::new(words[12 + k]);
        assert_eq!((ins.opcode, ins.rs1, ins.rs2, ins.imm, ins.funct3), (0x63, *rs1, *rs2, *imm, *f3));
    }
    let s = SInstruction::new(words[16]);
    assert_eq!((s.opcode, s.rs1, s.rs2, s.imm, s.funct3), (0x23, 10, 9, 12, 2));
    let l = IInstruction::new(words[17]);
    assert_eq!((l.opcode, l.rd, l.rs1, l.imm, l.funct3), (0x03, 11, 12, -8, 2));
}

#[test]
fn table_lookup() {
    assert_eq!(get_info(&chars("add")), Some((InstructionType::RInstr, 0x33, 0, 0)));
    assert_eq!(get_info(&chars("sra")), Some((InstructionType::RInstr, 0x33, 5, 0x20)));
    assert_eq!(get_info(&chars("lw")), Some((InstructionType::IInstr, 0x03, 2, 0)));
    assert_eq!(get_info(&chars("sw")), Some((InstructionType::SInstr, 0x23, 2, 0)));
    assert_eq!(get_info(&chars("bge")), Some((InstructionType::BInstr, 0x63, 5, 0)));
    assert_eq!(get_info(&chars("ebreak")), Some((InstructionType::IInstr, 0x73, 0, 1)));
    assert_eq!(get_info(&chars("ADD")), None);
    assert_eq!(get_info(&chars("")), None);
}

#[test]
fn words_become_little_endian_bytes() {
    assert_eq!(
        words_to_bytes(&vec![0x00500093, 0x12345678]),
        vec![0x93, 0x00, 0x50, 0x00, 0x78, 0x56, 0x34, 0x12]
    );
    assert!(words_to_bytes(&vec![]).is_empty());
}

#[test]
fn branch_offsets_use_the_thirteen_bit_range() {
    let words = Assembler::from_source("beq x1, x2, 4094\nbne x1, x2, -4096\nblt x1, x2, 2048\n")
        .assemble()
        .unwrap();
    assert_eq!(BInstruction::new(words[0]).imm, 4094);
    assert_eq!(BInstruction::new(words[1]).imm, -4096);
    assert_eq!(BInstruction::new(words[2]).imm, 2048);
    assert_eq!(
        Assembler::from_source("beq x1, x2, 4096\n").assemble(),
        Err(AsmError::ImmediateOutOfRange(0))
    );
    assert_eq!(
        Assembler::from_source("beq x1, x2, -4098\n").assemble(),
        Err(AsmError::ImmediateOutOfRange(0))
    );
}

#[test]
fn odd_branch_offset_is_rejected() {
    assert_eq!(
        Assembler::from_source("beq x1, x2, 3\n").assemble(),
        Err(AsmError::ImmediateOutOfRange(0))
    );
    assert_eq!(
        Assembler::from_source("addi x1, x0, 1\nbne x1, x2, -7\n").assemble(),
        Err(AsmError::ImmediateOutOfRange(1))
    );
}

#[test]
fn store_offset_keeps_the_twelve_bit_range() {
    assert_eq!(
        Assembler::from_source("sw x1, 2048(x2)\n").assemble(),
        Err(AsmError::ImmediateOutOfRange(0))
    );
    let words = Assembler::from_source("sw x1, -2048(x2)\n").assemble().unwrap();
    assert_eq!(SInstruction::new(words[0]).imm, -2048);
}
