//! The fetch-decode-execute engine.
//!
//! `Machine` is the mathematical state of the CPU and `execute` says what one
//! instruction does to it; `CPU::step` is proved to follow `execute`.
use vstd::prelude::*;

use crate::instruction::{
    BInstruction, IInstruction, InstructionType, RInstruction, SInstruction, funct3_of, funct7_of,
    imm_b_of, imm_i_of, imm_s_of, lemma_field_bounds, lemma_round_trip_i, lemma_round_trip_s, opcode_of,
    pack_i, pack_s, rd_of, rs1_of, rs2_of,
};

verus! {

/// Address at which programs are loaded and execution starts.
pub const MEM_START: usize = 0x100;

/// Size of the memory in bytes.
pub const MEM_SIZE: usize = 0x200;

/// Highest address from which a whole word can still be read.
pub const LAST_WORD: u32 = 0x1FC;

pub const OPCODE_R: u8 = 0x33;

pub const OPCODE_ALU_IMM: u8 = 0x13;

pub const OPCODE_SYSTEM: u8 = 0x73;

pub const OPCODE_LOAD: u8 = 0x03;

pub const OPCODE_BRANCH: u8 = 0x63;

pub const OPCODE_STORE: u8 = 0x23;

// ---------------------------------------------------------------------
// The model
// ---------------------------------------------------------------------

/// The architectural state: 32 registers, the memory bytes, the program
/// counter and the halt flag.
pub struct Machine {
    pub registers: Seq<u32>,
    pub memory: Seq<u8>,
    pub pc: u32,
    pub halted: bool,
}

/// What the last decoded instruction was, for display.
pub struct InfoView {
    pub instr_type: Option<InstructionType>,
    pub name: Option<Seq<char>>,
    pub rd: Option<u8>,
    pub rs1: u8,
    pub rs2: Option<u8>,
    pub imm: Option<i16>,
}

/// `x` modulo 2^32.
pub open spec fn wrap32(x: int) -> u32 {
    (x % 0x1_0000_0000) as u32
}

/// Shift left by the whole amount: 32 places or more leave nothing.
pub open spec fn shift_left(a: u32, b: u32) -> u32 {
    if b >= 32 {
        0
    } else {
        a << b
    }
}

/// Shift right by the whole amount: 32 places or more leave nothing.
pub open spec fn shift_right(a: u32, b: u32) -> u32 {
    if b >= 32 {
        0
    } else {
        a >> b
    }
}

/// The little-endian word whose lowest byte is at `a`.
pub open spec fn load_le(mem: Seq<u8>, a: int) -> u32 {
    (mem[a] as u32) | ((mem[a + 1] as u32) << 8u32) | ((mem[a + 2] as u32) << 16u32) | ((mem[a
        + 3] as u32) << 24u32)
}

/// Byte `k` (0 = lowest) of `w`.
pub open spec fn byte_of(w: u32, k: u32) -> u8 {
    ((w >> (8 * k) as u32) & 0xFF) as u8
}

/// `mem` with `w` written little-endian at `a`.
pub open spec fn store_le(mem: Seq<u8>, a: int, w: u32) -> Seq<u8> {
    mem.update(a, byte_of(w, 0)).update(a + 1, byte_of(w, 1)).update(a + 2, byte_of(w, 2)).update(
        a + 3,
        byte_of(w, 3),
    )
}

/// Memory address `base + offset`, taken modulo 2^32.
pub open spec fn effective_address(base: u32, offset: int) -> u32 {
    wrap32(base + offset)
}

pub open spec fn reg(s: Machine, r: u8) -> u32 {
    s.registers[r as int]
}

pub open spec fn set_reg(s: Machine, rd: u8, v: u32) -> Machine {
    Machine { registers: s.registers.update(rd as int, v), ..s }
}

/// The value a register-register operation computes, if `funct3`/`funct7`
/// name one. `sra` shifts the unsigned register value, as `srl` does.
pub open spec fn r_result(funct3: u8, funct7: u8, a: u32, b: u32) -> Option<u32> {
    if funct3 == 0 && funct7 == 0 {
        Some(wrap32(a + b))
    } else if funct3 == 0 && funct7 == 0x20 {
        Some(wrap32(a - b))
    } else if funct3 == 4 {
        Some(a ^ b)
    } else if funct3 == 6 {
        Some(a | b)
    } else if funct3 == 7 {
        Some(a & b)
    } else if funct3 == 1 {
        Some(shift_left(a, b))
    } else if funct3 == 5 && (funct7 == 0 || funct7 == 0x20) {
        Some(shift_right(a, b))
    } else {
        None
    }
}

/// The value a register-immediate ALU operation computes, if `funct3`
/// names one; the immediate is sign-extended to 32 bits.
pub open spec fn i_result(funct3: u8, a: u32, imm: i16) -> Option<u32> {
    if funct3 == 0 {
        Some(wrap32(a + imm))
    } else if funct3 == 4 {
        Some(a ^ (imm as u32))
    } else if funct3 == 6 {
        Some(a | (imm as u32))
    } else if funct3 == 7 {
        Some(a & (imm as u32))
    } else {
        None
    }
}

/// Whether the branch named by `funct3` is taken; registers compare as
/// unsigned values.
pub open spec fn branch_taken(funct3: u8, a: u32, b: u32) -> bool {
    (funct3 == 0 && a == b) || (funct3 == 1 && a != b) || (funct3 == 4 && a < b) || (funct3 == 5
        && a >= b)
}

pub open spec fn exec_r(s: Machine, w: u32) -> Machine {
    if funct7_of(w) == 1 {
        s
    } else {
        match r_result(funct3_of(w), funct7_of(w), reg(s, rs1_of(w)), reg(s, rs2_of(w))) {
            Some(v) => set_reg(s, rd_of(w), v),
            None => s,
        }
    }
}

pub open spec fn exec_i(s: Machine, w: u32) -> Machine {
    if opcode_of(w) == OPCODE_SYSTEM {
        if imm_i_of(w) == 1 {
            Machine { halted: true, ..s }
        } else {
            s
        }
    } else if opcode_of(w) == OPCODE_LOAD {
        let a = effective_address(reg(s, rs1_of(w)), imm_i_of(w) as int);
        if funct3_of(w) == 2 && a <= LAST_WORD {
            set_reg(s, rd_of(w), load_le(s.memory, a as int))
        } else {
            s
        }
    } else {
        match i_result(funct3_of(w), reg(s, rs1_of(w)), imm_i_of(w)) {
            Some(v) => set_reg(s, rd_of(w), v),
            None => s,
        }
    }
}

/// A taken branch sets the PC to `pc + imm - 4`, so that the step's
/// following `+ 4` lands on `pc + imm`. Offsets that are not a multiple of
/// 4, and targets below address 0, are not taken.
pub open spec fn take_branch(s: Machine, taken: bool, imm: int) -> Machine {
    if imm % 4 == 0 && taken && s.pc + imm - 4 >= 0 {
        Machine { pc: (s.pc + imm - 4) as u32, ..s }
    } else {
        s
    }
}

pub open spec fn exec_b(s: Machine, w: u32) -> Machine {
    take_branch(
        s,
        branch_taken(funct3_of(w), reg(s, rs1_of(w)), reg(s, rs2_of(w))),
        imm_b_of(w) as int,
    )
}

pub open spec fn exec_s(s: Machine, w: u32) -> Machine {
    let a = effective_address(reg(s, rs1_of(w)), imm_s_of(w) as int);
    if funct3_of(w) == 2 && a <= LAST_WORD {
        Machine { memory: store_le(s.memory, a as int, reg(s, rs2_of(w))), ..s }
    } else {
        s
    }
}

/// The state after executing `w`, PC advanced by 4 included. Unknown
/// opcodes and function selectors change nothing but the PC; so does a
/// load or store whose word would not lie wholly in memory.
pub open spec fn execute(s: Machine, w: u32) -> Machine {
    let op = opcode_of(w);
    let t = if op == OPCODE_R {
        exec_r(s, w)
    } else if op == OPCODE_ALU_IMM || op == OPCODE_SYSTEM || op == OPCODE_LOAD {
        exec_i(s, w)
    } else if op == OPCODE_BRANCH {
        exec_b(s, w)
    } else if op == OPCODE_STORE {
        exec_s(s, w)
    } else {
        s
    };
    Machine { pc: wrap32(t.pc + 4), ..t }
}

/// Whether `step` does anything: not halted, and a whole word at the PC.
pub open spec fn can_step(s: Machine) -> bool {
    !s.halted && s.pc <= LAST_WORD
}

/// The word at the PC.
pub open spec fn current_word(s: Machine) -> u32 {
    load_le(s.memory, s.pc as int)
}

pub open spec fn no_info() -> InfoView {
    InfoView { instr_type: None, name: None, rd: None, rs1: 0, rs2: None, imm: None }
}

pub open spec fn r_name(funct3: u8, funct7: u8) -> Option<Seq<char>> {
    if funct3 == 0 {
        if funct7 == 0 {
            Some("Add"@)
        } else if funct7 == 0x20 {
            Some("Sub"@)
        } else {
            None
        }
    } else if funct3 == 4 {
        Some("Xor"@)
    } else if funct3 == 6 {
        Some("Or"@)
    } else if funct3 == 7 {
        Some("And"@)
    } else if funct3 == 1 {
        Some("Shift Left Logical"@)
    } else if funct3 == 5 {
        if funct7 == 0 {
            Some("Shift Right Logical"@)
        } else if funct7 == 0x20 {
            Some("Shift Right Arithmetic"@)
        } else {
            None
        }
    } else {
        Some("UNKNOWN R INSTRUCTION"@)
    }
}

pub open spec fn i_name(opcode: u8, funct3: u8) -> Seq<char> {
    if opcode == OPCODE_LOAD {
        if funct3 == 2 {
            "LW"@
        } else {
            "Unknown I"@
        }
    } else if funct3 == 0 {
        "AddI"@
    } else if funct3 == 4 {
        "XorI"@
    } else if funct3 == 6 {
        "OrI"@
    } else if funct3 == 7 {
        "AndI"@
    } else {
        "Unknown I"@
    }
}

pub open spec fn b_name(funct3: u8) -> Option<Seq<char>> {
    if funct3 == 0 {
        Some("BEQ"@)
    } else if funct3 == 1 {
        Some("BNE"@)
    } else if funct3 == 4 {
        Some("BLT"@)
    } else if funct3 == 5 {
        Some("BGE"@)
    } else {
        None
    }
}

pub open spec fn s_name(funct3: u8) -> Seq<char> {
    if funct3 == 2 {
        "SW"@
    } else {
        "Unknown S"@
    }
}

/// What `step` records of the word it executed.
pub open spec fn info_of(w: u32) -> InfoView {
    let op = opcode_of(w);
    if op == OPCODE_R {
        if funct7_of(w) == 1 {
            no_info()
        } else {
            InfoView {
                instr_type: Some(InstructionType::RInstr),
                name: r_name(funct3_of(w), funct7_of(w)),
                rd: Some(rd_of(w)),
                rs1: rs1_of(w),
                rs2: Some(rs2_of(w)),
                imm: None,
            }
        }
    } else if op == OPCODE_ALU_IMM || op == OPCODE_LOAD {
        InfoView {
            instr_type: Some(InstructionType::IInstr),
            name: Some(i_name(op, funct3_of(w))),
            rd: Some(rd_of(w)),
            rs1: rs1_of(w),
            rs2: None,
            imm: Some(imm_i_of(w)),
        }
    } else if op == OPCODE_BRANCH {
        InfoView {
            instr_type: Some(InstructionType::BInstr),
            name: b_name(funct3_of(w)),
            rd: None,
            rs1: rs1_of(w),
            rs2: Some(rs2_of(w)),
            imm: Some(imm_b_of(w)),
        }
    } else if op == OPCODE_STORE {
        InfoView {
            instr_type: Some(InstructionType::SInstr),
            name: Some(s_name(funct3_of(w))),
            rd: None,
            rs1: rs1_of(w),
            rs2: Some(rs2_of(w)),
            imm: Some(imm_s_of(w)),
        }
    } else {
        no_info()
    }
}

/// `base + offset` modulo 2^32.
fn effective_address_exec(base: u32, offset: i32) -> (r: u32)
    ensures
        r == effective_address(base, offset as int),
{
    let r = base.wrapping_add_signed(offset);
    assert(r == effective_address(base, offset as int)) by {
        let x = base + offset;
        if x > u32::MAX {
            assert(x % 0x1_0000_0000 == x - 0x1_0000_0000);
        } else if x < 0 {
            assert(x % 0x1_0000_0000 == x + 0x1_0000_0000);
        } else {
            assert(x % 0x1_0000_0000 == x);
        }
    }
    r
}

// ---------------------------------------------------------------------
// Laws of the model
// ---------------------------------------------------------------------

/// A branch whose offset is not a multiple of 4 is never taken, whatever
/// the registers hold: the step only moves the PC on by 4.
pub proof fn lemma_misaligned_branch_falls_through(s: Machine)
    requires
        can_step(s),
        opcode_of(current_word(s)) == OPCODE_BRANCH,
        imm_b_of(current_word(s)) % 4 != 0,
    ensures
        execute(s, current_word(s)) == (Machine { pc: (s.pc + 4) as u32, ..s }),
{
    let w = current_word(s);
    assert(wrap32(s.pc + 4) == s.pc + 4);
}

/// The four little-endian bytes of a word make up that word again.
pub proof fn lemma_bytes_make_word(mem: Seq<u8>, a: int, w: u32)
    requires
        0 <= a,
        a + 4 <= mem.len(),
        mem[a] == byte_of(w, 0),
        mem[a + 1] == byte_of(w, 1),
        mem[a + 2] == byte_of(w, 2),
        mem[a + 3] == byte_of(w, 3),
    ensures
        load_le(mem, a) == w,
{
    assert(((byte_of(w, 0) as u32) | ((byte_of(w, 1) as u32) << 8u32) | ((byte_of(w, 2) as u32)
        << 16u32) | ((byte_of(w, 3) as u32) << 24u32)) == w) by (bit_vector);
}

/// Reading back a word just written at the same address gives the word.
pub proof fn lemma_load_after_store(mem: Seq<u8>, a: int, w: u32)
    requires
        0 <= a,
        a + 4 <= mem.len(),
    ensures
        load_le(store_le(mem, a, w), a) == w,
{
    lemma_bytes_make_word(store_le(mem, a, w), a, w);
}

/// Memory that holds the bytes of `ws` from the load address on (as
/// `words_to_bytes` lays them out) holds word `j` at `MEM_START + 4 * j`.
pub proof fn lemma_loaded_word(mem: Seq<u8>, ws: Seq<u32>, j: int)
    requires
        mem.len() == MEM_SIZE,
        MEM_START + 4 * ws.len() <= MEM_SIZE,
        0 <= j < ws.len(),
        forall|p: int|
            0 <= p < 4 * ws.len() ==> #[trigger] mem[MEM_START + p] == byte_of(
                ws[p / 4],
                (p % 4) as u32,
            ),
    ensures
        load_le(mem, MEM_START + 4 * j) == ws[j],
{
    let a = MEM_START + 4 * j;
    assert(mem[MEM_START + (4 * j)] == byte_of(ws[(4 * j) / 4], ((4 * j) % 4) as u32));
    assert(mem[MEM_START + (4 * j + 1)] == byte_of(ws[(4 * j + 1) / 4], ((4 * j + 1) % 4) as u32));
    assert(mem[MEM_START + (4 * j + 2)] == byte_of(ws[(4 * j + 2) / 4], ((4 * j + 2) % 4) as u32));
    assert(mem[MEM_START + (4 * j + 3)] == byte_of(ws[(4 * j + 3) / 4], ((4 * j + 3) % 4) as u32));
    lemma_bytes_make_word(mem, a, ws[j]);
}

/// `sw src, imm(base)` followed by `lw dst, imm(base)` leaves in `dst` the
/// value `src` held, whenever the addressed word lies wholly in memory.
pub proof fn lemma_store_then_load(s: Machine, base: u8, src: u8, dst: u8, imm: i16)
    requires
        s.registers.len() == 32,
        s.memory.len() == MEM_SIZE,
        base < 32,
        src < 32,
        dst < 32,
        -2048 <= imm <= 2047,
        effective_address(reg(s, base), imm as int) <= LAST_WORD,
    ensures
        reg(
            execute(
                execute(s, pack_s(OPCODE_STORE, 2, base, src, imm)),
                pack_i(OPCODE_LOAD, 2, dst, base, imm),
            ),
            dst,
        ) == reg(s, src),
{
    let ws = pack_s(OPCODE_STORE, 2, base, src, imm);
    let wl = pack_i(OPCODE_LOAD, 2, dst, base, imm);
    lemma_round_trip_s(OPCODE_STORE, 2, base, src, imm);
    lemma_round_trip_i(OPCODE_LOAD, 2, dst, base, imm);
    let a = effective_address(reg(s, base), imm as int);
    let t = execute(s, ws);
    assert(t.registers == s.registers);
    assert(t.memory == store_le(s.memory, a as int, reg(s, src)));
    lemma_load_after_store(s.memory, a as int, reg(s, src));
}

// ---------------------------------------------------------------------
// The executable CPU
// ---------------------------------------------------------------------

/// The most recently decoded instruction, for display.
#[derive(Debug)]
pub struct InstructionInfo {
    pub instr_type: Option<InstructionType>,
    pub name: Option<String>,
    pub rd: Option<u8>,
    pub rs1: u8,
    pub rs2: Option<u8>,
    pub imm: Option<i16>,
}

impl View for InstructionInfo {
    type V = InfoView;

    open spec fn view(&self) -> InfoView {
        InfoView {
            instr_type: self.instr_type,
            name: match self.name {
                Some(s) => Some(s@),
                None => None,
            },
            rd: self.rd,
            rs1: self.rs1,
            rs2: self.rs2,
            imm: self.imm,
        }
    }
}

impl Default for InstructionInfo {
    fn default() -> (r: InstructionInfo)
        ensures
            r@ == no_info(),
    {
        InstructionInfo { instr_type: None, name: None, rd: None, rs1: 0, rs2: None, imm: None }
    }
}

pub struct CPU {
    registers: [u32; 32],
    memory: [u8; MEM_SIZE],
    pc: u32,
    break_flag: bool,
    instruction_info: InstructionInfo,
}

impl View for CPU {
    type V = Machine;

    closed spec fn view(&self) -> Machine {
        Machine {
            registers: self.registers@,
            memory: self.memory@,
            pc: self.pc,
            halted: self.break_flag,
        }
    }
}

impl Default for CPU {
    /// All zero, PC 0, not halted.
    fn default() -> (r: CPU)
        ensures
            r@.registers == Seq::new(32, |i: int| 0u32),
            r@.memory == Seq::new(MEM_SIZE as nat, |i: int| 0u8),
            r@.pc == 0,
            !r@.halted,
            r.info() == no_info(),
    {
        let r = CPU {
            registers: [0u32; 32],
            memory: [0u8; MEM_SIZE],
            pc: 0,
            break_flag: false,
            instruction_info: InstructionInfo::default(),
        };
        assert(r@.registers =~= Seq::new(32, |i: int| 0u32));
        assert(r@.memory =~= Seq::new(MEM_SIZE as nat, |i: int| 0u8));
        r
    }
}

impl CPU {
    /// What the last step decoded.
    pub closed spec fn info(&self) -> InfoView {
        self.instruction_info@
    }

    /// Nothing but register `rd` changed, and it now holds `v`.
    pub open spec fn wrote_register(&self, old: CPU, rd: u8, v: u32) -> bool {
        &&& self@ == set_reg(old@, rd, v)
        &&& self.info() == old.info()
    }

    pub fn get_pc(&self) -> (r: u32)
        ensures
            r == self@.pc,
    {
        self.pc
    }

    pub fn view_instr_info(&self) -> (r: &InstructionInfo)
        ensures
            r@ == self.info(),
    {
        &self.instruction_info
    }

    pub fn view_registers(&self) -> (r: &[u32; 32])
        ensures
            r@ == self@.registers,
    {
        &self.registers
    }

    pub fn view_memory(&self) -> (r: &[u8; MEM_SIZE])
        ensures
            r@ == self@.memory,
    {
        &self.memory
    }

    /// A zeroed CPU with PC 0, which loads nothing until a program is given.
    pub fn new() -> (r: CPU)
        ensures
            r@.registers == Seq::new(32, |i: int| 0u32),
            r@.memory == Seq::new(MEM_SIZE as nat, |i: int| 0u8),
            r@.pc == 0,
            !r@.halted,
            r.info() == no_info(),
    {
        CPU::default()
    }

    /// Zeroes everything again, as at construction: registers, memory and
    /// the PC are zero, the halt flag and the decoded instruction cleared.
    pub fn reset(&mut self)
        ensures
            final(self)@.registers == Seq::new(32, |i: int| 0u32),
            final(self)@.memory == Seq::new(MEM_SIZE as nat, |i: int| 0u8),
            final(self)@.pc == 0,
            !final(self)@.halted,
            final(self).info() == no_info(),
    {
        self.instruction_info = InstructionInfo::default();
        self.registers = [0u32; 32];
        self.memory = [0u8; MEM_SIZE];
        self.pc = 0;
        self.break_flag = false;
        assert(self@.registers =~= Seq::new(32, |i: int| 0u32));
        assert(self@.memory =~= Seq::new(MEM_SIZE as nat, |i: int| 0u8));
    }

    /// Copies `program` into memory from the load address on and puts the PC
    /// there. Memory outside the copied range, registers and the halt flag
    /// are kept.
    pub fn load_program(&mut self, program: &Vec<u8>)
        requires
            program.len() <= MEM_SIZE - MEM_START,
        ensures
            final(self)@.memory == old(self)@.memory.subrange(0, MEM_START as int) + program@
                + old(self)@.memory.subrange(MEM_START + program.len(), MEM_SIZE as int),
            final(self)@.pc == MEM_START,
            final(self)@.registers == old(self)@.registers,
            final(self)@.halted == old(self)@.halted,
            final(self).info() == old(self).info(),
    {
        let mut offset: usize = 0;
        while offset < program.len()
            invariant
                offset <= program.len() <= MEM_SIZE - MEM_START,
                self@.memory == old(self)@.memory.subrange(0, MEM_START as int)
                    + program@.subrange(0, offset as int) + old(self)@.memory.subrange(
                    MEM_START + offset,
                    MEM_SIZE as int,
                ),
                self.registers == old(self).registers,
                self.break_flag == old(self).break_flag,
                self.instruction_info == old(self).instruction_info,
            decreases program.len() - offset,
        {
            let ghost before = self@.memory;
            self.memory[MEM_START + offset] = program[offset];
            assert(self@.memory =~= old(self)@.memory.subrange(0, MEM_START as int)
                + program@.subrange(0, offset + 1) + old(self)@.memory.subrange(
                MEM_START + offset + 1,
                MEM_SIZE as int,
            ));
            offset += 1;
        }
        assert(program@.subrange(0, offset as int) =~= program@);
        self.pc = MEM_START as u32;
    }

    /// Executes one instruction. Returns false, and changes nothing, when
    /// the CPU is halted or the PC leaves no whole word to fetch.
    pub fn step(&mut self) -> (progressed: bool)
        ensures
            !can_step(old(self)@) ==> !progressed && *final(self) == *old(self),
            can_step(old(self)@) ==> {
                &&& progressed
                &&& final(self)@ == execute(old(self)@, current_word(old(self)@))
                &&& final(self).info() == info_of(current_word(old(self)@))
            },
    {
        if self.break_flag || self.pc > LAST_WORD {
            return false;
        }
        self.instruction_info = InstructionInfo::default();
        let instr: u32 = self.fetch();
        self.decode(instr);
        self.advance();
        true
    }

    fn fetch(&self) -> (r: u32)
        requires
            self.pc <= LAST_WORD,
        ensures
            r == current_word(self@),
    {
        let a = self.pc as usize;
        self.memory[a] as u32 | (self.memory[a + 1] as u32) << 8 | (self.memory[a + 2] as u32)
            << 16 | (self.memory[a + 3] as u32) << 24
    }

    /// The little-endian word at `base + offset`.
    fn get_word(&self, base: u32, offset: i32) -> (r: u32)
        requires
            effective_address(base, offset as int) <= LAST_WORD,
        ensures
            r == load_le(self@.memory, effective_address(base, offset as int) as int),
    {
        let start = effective_address_exec(base, offset) as usize;
        self.memory[start] as u32 | (self.memory[start + 1] as u32) << 8 | (self.memory[start
            + 2] as u32) << 16 | (self.memory[start + 3] as u32) << 24
    }

    /// Writes `word` little-endian at `base + offset`.
    fn set_word(&mut self, word: u32, base: u32, offset: i32)
        requires
            effective_address(base, offset as int) <= LAST_WORD,
        ensures
            final(self)@ == (Machine {
                memory: store_le(
                    old(self)@.memory,
                    effective_address(base, offset as int) as int,
                    word,
                ),
                ..old(self)@
            }),
            final(self).info() == old(self).info(),
    {
        let start = effective_address_exec(base, offset) as usize;
        assert({
            &&& byte_of(word, 0) == (word & 0xFF) as u8
            &&& byte_of(word, 1) == (word >> 8 & 0xFF) as u8
            &&& byte_of(word, 2) == (word >> 16 & 0xFF) as u8
            &&& byte_of(word, 3) == (word >> 24 & 0xFF) as u8
        }) by (bit_vector);
        self.memory[start] = (word & 0xFF) as u8;
        self.memory[start + 1] = (word >> 8 & 0xFF) as u8;
        self.memory[start + 2] = (word >> 16 & 0xFF) as u8;
        self.memory[start + 3] = (word >> 24 & 0xFF) as u8;
        assert(self@.memory =~= store_le(old(self)@.memory, start as int, word));
    }

    fn decode(&mut self, instruction: u32)
        requires
            old(self).info() == no_info(),
            old(self).pc <= LAST_WORD,
        ensures
            final(self)@ == (Machine { pc: final(self)@.pc, ..execute(old(self)@, instruction) }),
            final(self)@.pc as int + 4 == execute(old(self)@, instruction).pc,
            final(self).info() == info_of(instruction),
    {
        match (instruction & 0x7F) as u8 {
            0x33 => self.decode_r(instruction),
            0x13 | 0x73 | 0x3 => self.decode_i(instruction),
            0x63 => self.decode_b(instruction),
            0x23 => self.decode_s(instruction),
            _ => (),
        }
    }

    fn decode_r(&mut self, instruction: u32)
        requires
            old(self).info() == no_info(),
            opcode_of(instruction) == OPCODE_R,
        ensures
            final(self)@ == exec_r(old(self)@, instruction),
            final(self).info() == info_of(instruction),
    {
        let ins = RInstruction::new(instruction);
        proof {
            lemma_field_bounds(instruction);
        }
        if ins.funct7 == 0x01 {
            // multiply extension
            return;
        }
        self.instruction_info.instr_type = Some(InstructionType::RInstr);
        self.instruction_info.rs1 = ins.rs1;
        self.instruction_info.rs2 = Some(ins.rs2);
        self.instruction_info.rd = Some(ins.rd);

        match ins.funct3 {
            0x0 => {
                if ins.funct7 == 0x00 {
                    self.instruction_info.name = Some("Add".to_owned());
                    self.add(ins.rd, ins.rs1, ins.rs2);
                } else if ins.funct7 == 0x20 {
                    self.instruction_info.name = Some("Sub".to_owned());
                    self.sub(ins.rd, ins.rs1, ins.rs2);
                }
            },
            0x4 => {
                self.instruction_info.name = Some("Xor".to_owned());
                self.xor(ins.rd, ins.rs1, ins.rs2);
            },
            0x6 => {
                self.instruction_info.name = Some("Or".to_owned());
                self.or(ins.rd, ins.rs1, ins.rs2);
            },
            0x7 => {
                self.instruction_info.name = Some("And".to_owned());
                self.and(ins.rd, ins.rs1, ins.rs2);
            },
            0x1 => {
                self.instruction_info.name = Some("Shift Left Logical".to_owned());
                self.shift_left_logical(ins.rd, ins.rs1, ins.rs2);
            },
            0x5 => {
                if ins.funct7 == 0x00 {
                    self.instruction_info.name = Some("Shift Right Logical".to_owned());
                    self.shift_right_logical(ins.rd, ins.rs1, ins.rs2);
                } else if ins.funct7 == 0x20 {
                    self.instruction_info.name = Some("Shift Right Arithmetic".to_owned());
                    self.shift_right_arithmetic(ins.rd, ins.rs1, ins.rs2);
                }
            },
            _ => {
                self.instruction_info.name = Some("UNKNOWN R INSTRUCTION".to_owned());
            },
        }
    }

    fn decode_i(&mut self, instruction: u32)
        requires
            old(self).info() == no_info(),
            opcode_of(instruction) == OPCODE_ALU_IMM || opcode_of(instruction) == OPCODE_SYSTEM
                || opcode_of(instruction) == OPCODE_LOAD,
        ensures
            final(self)@ == exec_i(old(self)@, instruction),
            final(self).info() == info_of(instruction),
    {
        let ins = IInstruction::new(instruction);
        proof {
            lemma_field_bounds(instruction);
        }
        if ins.opcode == 0x73 && ins.imm == 1 {
            self.break_flag = true;
            return;
        }
        if (ins.opcode != 0x13) && (ins.opcode != 0x3) {
            return;
        }
        self.instruction_info.instr_type = Some(InstructionType::IInstr);
        self.instruction_info.rs1 = ins.rs1;
        self.instruction_info.rd = Some(ins.rd);
        self.instruction_info.imm = Some(ins.imm);

        if ins.opcode == 0x3 {
            match ins.funct3 {
                0x2 => {
                    self.instruction_info.name = Some("LW".to_owned());
                    self.load_word(ins.rd, ins.rs1, ins.imm as i32);
                },
                _ => {
                    self.instruction_info.name = Some("Unknown I".to_owned());
                },
            }
        } else {
            match ins.funct3 {
                0x0 => {
                    self.instruction_info.name = Some("AddI".to_owned());
                    self.addimm(ins.rd, ins.rs1, ins.imm as i32);
                },
                0x4 => {
                    self.instruction_info.name = Some("XorI".to_owned());
                    self.xorimm(ins.rd, ins.rs1, ins.imm as i32);
                },
                0x6 => {
                    self.instruction_info.name = Some("OrI".to_owned());
                    self.orimm(ins.rd, ins.rs1, ins.imm as i32);
                },
                0x7 => {
                    self.instruction_info.name = Some("AndI".to_owned());
                    self.andimm(ins.rd, ins.rs1, ins.imm as i32);
                },
                _ => {
                    self.instruction_info.name = Some("Unknown I".to_owned());
                },
            }
        }
    }

    fn decode_b(&mut self, instruction: u32)
        requires
            old(self).info() == no_info(),
            old(self).pc <= LAST_WORD,
            opcode_of(instruction) == OPCODE_BRANCH,
        ensures
            final(self)@ == exec_b(old(self)@, instruction),
            final(self).info() == info_of(instruction),
    {
        let ins = BInstruction::new(instruction);
        proof {
            lemma_field_bounds(instruction);
        }
        self.instruction_info.instr_type = Some(InstructionType::BInstr);
        self.instruction_info.rs1 = ins.rs1;
        self.instruction_info.rs2 = Some(ins.rs2);
        self.instruction_info.imm = Some(ins.imm);

        match ins.funct3 {
            0x0 => {
                self.instruction_info.name = Some("BEQ".to_owned());
                self.brancheq(ins.rs1, ins.rs2, ins.imm as i32)
            },
            0x1 => {
                self.instruction_info.name = Some("BNE".to_owned());
                self.branchneq(ins.rs1, ins.rs2, ins.imm as i32)
            },
            0x4 => {
                self.instruction_info.name = Some("BLT".to_owned());
                self.branchlt(ins.rs1, ins.rs2, ins.imm as i32)
            },
            0x5 => {
                self.instruction_info.name = Some("BGE".to_owned());
                self.branchge(ins.rs1, ins.rs2, ins.imm as i32)
            },
            _ => {},
        }
    }

    fn decode_s(&mut self, instruction: u32)
        requires
            old(self).info() == no_info(),
            opcode_of(instruction) == OPCODE_STORE,
        ensures
            final(self)@ == exec_s(old(self)@, instruction),
            final(self).info() == info_of(instruction),
    {
        let ins = SInstruction::new(instruction);
        proof {
            lemma_field_bounds(instruction);
        }
        self.instruction_info.instr_type = Some(InstructionType::SInstr);
        self.instruction_info.rs1 = ins.rs1;
        self.instruction_info.rs2 = Some(ins.rs2);
        self.instruction_info.imm = Some(ins.imm);

        match ins.funct3 {
            0x2 => {
                self.instruction_info.name = Some("SW".to_owned());
                self.store_word(ins.rs1, ins.rs2, ins.imm as i32);
            },
            _ => {
                self.instruction_info.name = Some("Unknown S".to_owned());
            },
        }
    }

    fn advance(&mut self)
        requires
            old(self).pc as int + 4 <= u32::MAX,
        ensures
            final(self)@ == (Machine { pc: (old(self)@.pc + 4) as u32, ..old(self)@ }),
            final(self).info() == old(self).info(),
    {
        self.pc += 4;
    }

    // ARITHMETIC

    fn add(&mut self, rd: u8, r1: u8, r2: u8)
        requires
            rd < 32,
            r1 < 32,
            r2 < 32,
        ensures
            final(self).wrote_register(
                *old(self),
                rd,
                wrap32(reg(old(self)@, r1) + reg(old(self)@, r2)),
            ),
    {
        self.registers[rd as usize] = self.registers[r1 as usize].wrapping_add(
            self.registers[r2 as usize],
        );
    }

    fn sub(&mut self, rd: u8, r1: u8, r2: u8)
        requires
            rd < 32,
            r1 < 32,
            r2 < 32,
        ensures
            final(self).wrote_register(
                *old(self),
                rd,
                wrap32(reg(old(self)@, r1) - reg(old(self)@, r2)),
            ),
    {
        self.registers[rd as usize] = self.registers[r1 as usize].wrapping_sub(
            self.registers[r2 as usize],
        );
    }

    fn xor(&mut self, rd: u8, r1: u8, r2: u8)
        requires
            rd < 32,
            r1 < 32,
            r2 < 32,
        ensures
            final(self).wrote_register(*old(self), rd, reg(old(self)@, r1) ^ reg(old(self)@, r2)),
    {
        self.registers[rd as usize] = self.registers[r1 as usize] ^ self.registers[r2 as usize];
    }

    fn or(&mut self, rd: u8, r1: u8, r2: u8)
        requires
            rd < 32,
            r1 < 32,
            r2 < 32,
        ensures
            final(self).wrote_register(*old(self), rd, reg(old(self)@, r1) | reg(old(self)@, r2)),
    {
        self.registers[rd as usize] = self.registers[r1 as usize] | self.registers[r2 as usize];
    }

    fn and(&mut self, rd: u8, r1: u8, r2: u8)
        requires
            rd < 32,
            r1 < 32,
            r2 < 32,
        ensures
            final(self).wrote_register(*old(self), rd, reg(old(self)@, r1) & reg(old(self)@, r2)),
    {
        self.registers[rd as usize] = self.registers[r1 as usize] & self.registers[r2 as usize];
    }

    /// The shift amount is the whole register value, not its low five bits.
    fn shift_left_logical(&mut self, rd: u8, r1: u8, r2: u8)
        requires
            rd < 32,
            r1 < 32,
            r2 < 32,
        ensures
            final(self).wrote_register(
                *old(self),
                rd,
                shift_left(reg(old(self)@, r1), reg(old(self)@, r2)),
            ),
    {
        let a = self.registers[r1 as usize];
        let b = self.registers[r2 as usize];
        self.registers[rd as usize] = if b >= 32 {
            0
        } else {
            a << b
        };
    }

    /// The shift amount is the whole register value, not its low five bits.
    fn shift_right_logical(&mut self, rd: u8, r1: u8, r2: u8)
        requires
            rd < 32,
            r1 < 32,
            r2 < 32,
        ensures
            final(self).wrote_register(
                *old(self),
                rd,
                shift_right(reg(old(self)@, r1), reg(old(self)@, r2)),
            ),
    {
        let a = self.registers[r1 as usize];
        let b = self.registers[r2 as usize];
        self.registers[rd as usize] = if b >= 32 {
            0
        } else {
            a >> b
        };
    }

    /// Registers hold unsigned values, so this shift brings in zeros as the
    /// logical one does.
    fn shift_right_arithmetic(&mut self, rd: u8, r1: u8, r2: u8)
        requires
            rd < 32,
            r1 < 32,
            r2 < 32,
        ensures
            final(self).wrote_register(
                *old(self),
                rd,
                shift_right(reg(old(self)@, r1), reg(old(self)@, r2)),
            ),
    {
        self.shift_right_logical(rd, r1, r2);
    }

    fn addimm(&mut self, rd: u8, r1: u8, imm: i32)
        requires
            rd < 32,
            r1 < 32,
        ensures
            final(self).wrote_register(*old(self), rd, wrap32(reg(old(self)@, r1) + imm)),
    {
        self.registers[rd as usize] = self.registers[r1 as usize].wrapping_add_signed(imm);
    }

    fn xorimm(&mut self, rd: u8, r1: u8, imm: i32)
        requires
            rd < 32,
            r1 < 32,
        ensures
            final(self).wrote_register(*old(self), rd, reg(old(self)@, r1) ^ (imm as u32)),
    {
        self.registers[rd as usize] = self.registers[r1 as usize] ^ (imm as u32);
    }

    fn orimm(&mut self, rd: u8, r1: u8, imm: i32)
        requires
            rd < 32,
            r1 < 32,
        ensures
            final(self).wrote_register(*old(self), rd, reg(old(self)@, r1) | (imm as u32)),
    {
        self.registers[rd as usize] = self.registers[r1 as usize] | (imm as u32);
    }

    fn andimm(&mut self, rd: u8, r1: u8, imm: i32)
        requires
            rd < 32,
            r1 < 32,
        ensures
            final(self).wrote_register(*old(self), rd, reg(old(self)@, r1) & (imm as u32)),
    {
        self.registers[rd as usize] = self.registers[r1 as usize] & (imm as u32);
    }

    // BRANCHING

    fn branch(&mut self, imm: i32)
        requires
            old(self).pc <= LAST_WORD,
            -4096 <= imm <= 4095,
            imm % 4 == 0,
        ensures
            final(self)@ == take_branch(old(self)@, true, imm as int),
            final(self).info() == old(self).info(),
    {
        if self.pc as i32 + imm - 4 >= 0 {
            self.pc = (self.pc as i32 + imm - 4) as u32;
        }
    }

    fn brancheq(&mut self, r1: u8, r2: u8, imm: i32)
        requires
            old(self).pc <= LAST_WORD,
            -4096 <= imm <= 4095,
            r1 < 32,
            r2 < 32,
        ensures
            final(self)@ == take_branch(
                old(self)@,
                branch_taken(0, reg(old(self)@, r1), reg(old(self)@, r2)),
                imm as int,
            ),
            final(self).info() == old(self).info(),
    {
        if imm % 4 != 0 {
            return;
        }
        if self.registers[r1 as usize] == self.registers[r2 as usize] {
            self.branch(imm);
        }
    }

    fn branchneq(&mut self, r1: u8, r2: u8, imm: i32)
        requires
            old(self).pc <= LAST_WORD,
            -4096 <= imm <= 4095,
            r1 < 32,
            r2 < 32,
        ensures
            final(self)@ == take_branch(
                old(self)@,
                branch_taken(1, reg(old(self)@, r1), reg(old(self)@, r2)),
                imm as int,
            ),
            final(self).info() == old(self).info(),
    {
        if imm % 4 != 0 {
            return;
        }
        if self.registers[r1 as usize] != self.registers[r2 as usize] {
            self.branch(imm);
        }
    }

    /// Compares the unsigned register values.
    fn branchlt(&mut self, r1: u8, r2: u8, imm: i32)
        requires
            old(self).pc <= LAST_WORD,
            -4096 <= imm <= 4095,
            r1 < 32,
            r2 < 32,
        ensures
            final(self)@ == take_branch(
                old(self)@,
                branch_taken(4, reg(old(self)@, r1), reg(old(self)@, r2)),
                imm as int,
            ),
            final(self).info() == old(self).info(),
    {
        if imm % 4 != 0 {
            return;
        }
        if self.registers[r1 as usize] < self.registers[r2 as usize] {
            self.branch(imm);
        }
    }

    /// Compares the unsigned register values.
    fn branchge(&mut self, r1: u8, r2: u8, imm: i32)
        requires
            old(self).pc <= LAST_WORD,
            -4096 <= imm <= 4095,
            r1 < 32,
            r2 < 32,
        ensures
            final(self)@ == take_branch(
                old(self)@,
                branch_taken(5, reg(old(self)@, r1), reg(old(self)@, r2)),
                imm as int,
            ),
            final(self).info() == old(self).info(),
    {
        if imm % 4 != 0 {
            return;
        }
        if self.registers[r1 as usize] >= self.registers[r2 as usize] {
            self.branch(imm);
        }
    }

    // MEMORY

    /// Loads the word at `reg[r1] + imm` into `rd`; an address whose word
    /// would not lie wholly in memory leaves `rd` unchanged.
    fn load_word(&mut self, rd: u8, r1: u8, imm: i32)
        requires
            rd < 32,
            r1 < 32,
        ensures
            ({
                let a = effective_address(reg(old(self)@, r1), imm as int);
                if a <= LAST_WORD {
                    final(self).wrote_register(*old(self), rd, load_le(old(self)@.memory, a as int))
                } else {
                    *final(self) == *old(self)
                }
            }),
    {
        let base = self.registers[r1 as usize];
        if effective_address_exec(base, imm) <= LAST_WORD {
            let word = self.get_word(base, imm);
            self.registers[rd as usize] = word;
        }
    }

    /// Stores `reg[r2]` at `reg[r1] + imm`; an address whose word would not
    /// lie wholly in memory stores nothing.
    fn store_word(&mut self, r1: u8, r2: u8, imm: i32)
        requires
            r1 < 32,
            r2 < 32,
        ensures
            ({
                let a = effective_address(reg(old(self)@, r1), imm as int);
                if a <= LAST_WORD {
                    &&& final(self)@ == (Machine {
                        memory: store_le(old(self)@.memory, a as int, reg(old(self)@, r2)),
                        ..old(self)@
                    })
                    &&& final(self).info() == old(self).info()
                } else {
                    *final(self) == *old(self)
                }
            }),
    {
        let word = self.registers[r2 as usize];
        let base = self.registers[r1 as usize];
        if effective_address_exec(base, imm) <= LAST_WORD {
            self.set_word(word, base, imm);
        }
    }
}

} // verus!
