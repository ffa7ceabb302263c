use rvsim::assembler::{words_to_bytes, Assembler};
use rvsim::cpu::{CPU, MEM_SIZE, MEM_START};
use rvsim::instruction::InstructionType;

fn load(src: &str) -> CPU {
    let words = Assembler::from_source(src).assemble().unwrap();
    let mut cpu = CPU::new();
    cpu.reset();
    cpu.load_program(&words_to_bytes(&words));
    cpu
}

fn run(cpu: &mut CPU) -> usize {
    let mut n = 0;
    while cpu.step() {
        n += 1;
        assert!(n < 10_000);
    }
    n
}

#[test]
fn add_program_halts_with_sum() {
    let mut cpu = load("addi x1, x0, 5\naddi x2, x0, 7\nadd x3, x1, x2\nebreak\n");
    assert_eq!(run(&mut cpu), 4);
    assert_eq!(cpu.view_registers()[1], 5);
    assert_eq!(cpu.view_registers()[2], 7);
    assert_eq!(cpu.view_registers()[3], 12);
    // halted: the PC still has a word to fetch, yet nothing more runs
    assert_eq!(cpu.get_pc(), MEM_START as u32 + 16);
    assert!(!cpu.step());
}

#[test]
fn misaligned_beq_never_branches() {
    // equal registers, offset 6
    let mut cpu = load("beq x0, x0, 6\nebreak\n");
    assert!(cpu.step());
    assert_eq!(cpu.get_pc(), MEM_START as u32 + 4);
    // unequal registers, offset -2
    let mut cpu = load("addi x1, x0, 1\nbeq x1, x0, -2\nebreak\n");
    assert!(cpu.step());
    assert!(cpu.step());
    assert_eq!(cpu.get_pc(), MEM_START as u32 + 8);
}

#[test]
fn store_then_load_round_trips() {
    let mut cpu = load("addi x1, x0, 64\naddi x2, x0, -123\nsw x2, 0(x1)\nlw x3, 0(x1)\nebreak\n");
    run(&mut cpu);
    assert_eq!(cpu.view_registers()[3], cpu.view_registers()[2]);
    assert_eq!(cpu.view_registers()[3], (-123i32) as u32);
    assert_eq!(&cpu.view_memory()[64..68], &[0x85, 0xFF, 0xFF, 0xFF]);
}

#[test]
fn out_of_range_load_and_store_change_nothing() {
    let mut cpu = load("addi x1, x0, 509\naddi x2, x0, 9\nsw x2, 0(x1)\nlw x2, 0(x1)\nebreak\n");
    run(&mut cpu);
    assert_eq!(cpu.view_registers()[2], 9);
    assert!(cpu.view_memory()[..MEM_START].iter().all(|b| *b == 0));
}

#[test]
fn forward_label_lands_on_target() {
    let mut cpu = load("beq x0, x0, end\naddi x1, x0, 1\naddi x1, x0, 2\nend:\nebreak\n");
    assert!(cpu.step());
    assert_eq!(cpu.get_pc(), MEM_START as u32 + 12);
    run(&mut cpu);
    assert_eq!(cpu.view_registers()[1], 0);
}

#[test]
fn backward_branch_loops() {
    let src = "addi x1, x0, 3\nloop:\naddi x1, x1, -1\nbne x1, x0, loop\nebreak\n";
    let mut cpu = load(src);
    assert_eq!(run(&mut cpu), 1 + 3 * 2 + 1);
    assert_eq!(cpu.view_registers()[1], 0);
}

#[test]
fn step_past_memory_end_does_nothing() {
    let mut cpu = CPU::new();
    cpu.reset();
    // all-zero words are ignored; the PC walks to the end of memory
    let n = run(&mut cpu);
    assert_eq!(n, MEM_SIZE / 4);
    assert_eq!(cpu.get_pc(), MEM_SIZE as u32);
    let regs = *cpu.view_registers();
    for _ in 0..3 {
        assert!(!cpu.step());
        assert_eq!(cpu.get_pc(), MEM_SIZE as u32);
        assert_eq!(*cpu.view_registers(), regs);
    }
}

#[test]
fn new_cpu_is_zeroed() {
    let cpu = CPU::new();
    assert_eq!(cpu.get_pc(), 0);
    assert!(cpu.view_registers().iter().all(|r| *r == 0));
    assert!(cpu.view_memory().iter().all(|b| *b == 0));
    assert!(cpu.view_instr_info().name.is_none());
    let d = CPU::default();
    assert_eq!(d.get_pc(), 0);
}

#[test]
fn reset_clears_everything() {
    let mut cpu = load("addi x1, x0, 5\nebreak\n");
    run(&mut cpu);
    cpu.reset();
    assert_eq!(cpu.get_pc(), 0);
    assert!(cpu.view_registers().iter().all(|r| *r == 0));
    assert!(cpu.view_memory().iter().all(|b| *b == 0));
    assert!(cpu.view_instr_info().name.is_none());
    // the same state as a new CPU
    let fresh = CPU::new();
    assert_eq!(cpu.get_pc(), fresh.get_pc());
    assert_eq!(cpu.view_registers(), fresh.view_registers());
    assert_eq!(cpu.view_memory(), fresh.view_memory());
    assert!(cpu.step());
    assert_eq!(cpu.get_pc(), 4);
}

#[test]
fn load_program_keeps_other_memory() {
    let mut cpu = load("addi x1, x0, 64\naddi x2, x0, 77\nsw x2, 0(x1)\nebreak\n");
    run(&mut cpu);
    cpu.load_program(&vec![1, 2, 3]);
    assert_eq!(cpu.get_pc(), MEM_START as u32);
    assert_eq!(cpu.view_memory()[64], 77);
    assert_eq!(&cpu.view_memory()[MEM_START..MEM_START + 4], &[1, 2, 3, 0x04]);
    assert_eq!(cpu.view_registers()[2], 77);
}

#[test]
fn arithmetic_wraps_to_32_bits() {
    let mut cpu = load("addi x1, x0, -1\naddi x2, x0, 2\nadd x3, x1, x2\nsub x4, x0, x2\naddi x5, x1, 1\nebreak\n");
    run(&mut cpu);
    let r = cpu.view_registers();
    assert_eq!(r[1], u32::MAX);
    assert_eq!(r[3], 1);
    assert_eq!(r[4], (-2i32) as u32);
    assert_eq!(r[5], 0);
}

#[test]
fn logic_operations() {
    let src = "addi x1, x0, 12\naddi x2, x0, 10\nxor x3, x1, x2\nor x4, x1, x2\nand x5, x1, x2\n\
               xori x6, x1, -1\nori x7, x1, 3\nandi x8, x1, 4\nebreak\n";
    let mut cpu = load(src);
    run(&mut cpu);
    let r = cpu.view_registers();
    assert_eq!((r[3], r[4], r[5]), (6, 14, 8));
    assert_eq!(r[6], !12u32);
    assert_eq!((r[7], r[8]), (15, 4));
}

#[test]
fn shifts_use_the_whole_amount() {
    let src = "addi x1, x0, -16\naddi x2, x0, 2\naddi x3, x0, 32\naddi x4, x0, 33\n\
               sll x5, x1, x2\nsrl x6, x1, x2\nsra x7, x1, x2\nsll x8, x1, x3\nsrl x9, x1, x4\nebreak\n";
    let mut cpu = load(src);
    run(&mut cpu);
    let r = cpu.view_registers();
    assert_eq!(r[5], 0xFFFF_FFC0);
    assert_eq!(r[6], 0x3FFF_FFFC);
    // registers are unsigned, so the arithmetic shift brings in zeros too
    assert_eq!(r[7], 0x3FFF_FFFC);
    assert_eq!(r[8], 0);
    assert_eq!(r[9], 0);
}

#[test]
fn branches_compare_unsigned() {
    // x1 = 0xFFFFFFFF is not less than x2 = 1
    let src = "addi x1, x0, -1\naddi x2, x0, 1\nblt x1, x2, skip\naddi x3, x0, 1\nskip:\n\
               bge x1, x2, over\naddi x4, x0, 1\nover:\nebreak\n";
    let mut cpu = load(src);
    run(&mut cpu);
    let r = cpu.view_registers();
    assert_eq!(r[3], 1);
    assert_eq!(r[4], 0);
}

#[test]
fn register_zero_is_writable() {
    let mut cpu = load("addi x0, x0, 9\nadd x1, x0, x0\nebreak\n");
    run(&mut cpu);
    assert_eq!(cpu.view_registers()[0], 9);
    assert_eq!(cpu.view_registers()[1], 18);
}

#[test]
fn step_records_decoded_instruction() {
    let mut cpu = load("addi x1, x0, 5\nsw x1, 8(x2)\nbeq x1, x1, 4\nsub x3, x1, x2\nebreak\n");
    cpu.step();
    let info = cpu.view_instr_info();
    assert_eq!(info.name.as_deref(), Some("AddI"));
    assert_eq!(info.instr_type, Some(InstructionType::IInstr));
    assert_eq!((info.rd, info.rs1, info.rs2, info.imm), (Some(1), 0, None, Some(5)));
    cpu.step();
    let info = cpu.view_instr_info();
    assert_eq!(info.name.as_deref(), Some("SW"));
    assert_eq!((info.rd, info.rs1, info.rs2, info.imm), (None, 2, Some(1), Some(8)));
    cpu.step();
    assert_eq!(cpu.view_instr_info().name.as_deref(), Some("BEQ"));
    cpu.step();
    let info = cpu.view_instr_info();
    assert_eq!(info.name.as_deref(), Some("Sub"));
    assert_eq!(info.instr_type, Some(InstructionType::RInstr));
    cpu.step();
    // the halt records nothing
    assert!(cpu.view_instr_info().name.is_none());
    assert!(cpu.view_instr_info().instr_type.is_none());
}
