use rvsim::instruction::{BInstruction, IInstruction, JInstruction, RInstruction, SInstruction};

#[test]
fn r_fields_of_add() {
    // add x3, x1, x2
    let ins = RInstruction::new(0x002081B3);
    assert_eq!(ins.opcode, 0x33);
    assert_eq!(ins.rd, 3);
    assert_eq!(ins.funct3, 0);
    assert_eq!(ins.rs1, 1);
    assert_eq!(ins.rs2, 2);
    assert_eq!(ins.funct7, 0);
}

#[test]
fn r_fields_of_sub_with_high_registers() {
    // sub x5, x6, x7 and add x31, x30, x29: rs2 uses all five bits
    let ins = RInstruction::new(0x407302B3);
    assert_eq!((ins.rd, ins.rs1, ins.rs2, ins.funct7), (5, 6, 7, 0x20));
    let ins = RInstruction::new(0x01DF0FB3);
    assert_eq!((ins.rd, ins.rs1, ins.rs2), (31, 30, 29));
}

#[test]
fn i_immediate_is_sign_extended() {
    // addi x1, x0, -1
    let ins = IInstruction::new(0xFFF00093);
    assert_eq!(ins.opcode, 0x13);
    assert_eq!(ins.rd, 1);
    assert_eq!(ins.rs1, 0);
    assert_eq!(ins.imm, -1);
    // addi x1, x0, 5
    assert_eq!(IInstruction::new(0x00500093).imm, 5);
    // largest and smallest 12-bit values
    assert_eq!(IInstruction::new(0x7FF00013).imm, 2047);
    assert_eq!(IInstruction::new(0x80000013).imm, -2048);
}

#[test]
fn s_immediate_joins_both_parts() {
    // sw x9, -4(x10)
    let ins = SInstruction::new(0xFE952E23);
    assert_eq!(ins.opcode, 0x23);
    assert_eq!(ins.funct3, 2);
    assert_eq!(ins.rs1, 10);
    assert_eq!(ins.rs2, 9);
    assert_eq!(ins.imm, -4);
}

#[test]
fn b_immediate_decodes_all_four_parts() {
    // beq x1, x2, -8
    let ins = BInstruction::new(0xFE208CE3);
    assert_eq!(ins.opcode, 0x63);
    assert_eq!(ins.funct3, 0);
    assert_eq!(ins.rs1, 1);
    assert_eq!(ins.rs2, 2);
    assert_eq!(ins.imm, -8);
    // beq x0, x0, 12
    assert_eq!(BInstruction::new(0x00000663).imm, 12);
    // bne x31, x30, -2048
    let ins = BInstruction::new(0x81EF90E3);
    assert_eq!((ins.funct3, ins.rs1, ins.rs2, ins.imm), (1, 31, 30, -2048));
    // all offset bits set: -2
    assert_eq!(BInstruction::new(0xFE000FE3).imm, -2);
    // only imm[12] set: -4096
    assert_eq!(BInstruction::new(0x80000063).imm, -4096);
}

#[test]
fn j_fields() {
    let ins = JInstruction::new(0x0007F0EF);
    assert_eq!(ins.opcode, 0x6F);
    assert_eq!(ins.rd, 1);
    assert_eq!(ins.imm, 0x7F << 12);
}
