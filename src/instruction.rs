//! Bit layouts of the four instruction formats (R, I, S, B).
//!
//! The spec functions here are the one description of where each field
//! lives in a 32-bit word; the decoders below and the assembler's encoders
//! are both proved against them.
use vstd::prelude::*;

verus! {

/// The format family of an instruction.
#[derive(Debug, Clone, Copy, PartialEq, Eq, Structural)]
pub enum InstructionType {
    RInstr,
    IInstr,
    BInstr,
    SInstr,
}

// ---------------------------------------------------------------------
// Field layout
// ---------------------------------------------------------------------

/// Bits [6:0].
pub open spec fn opcode_of(n: u32) -> u8 {
    (n & 0x7F) as u8
}

/// Bits [11:7].
pub open spec fn rd_of(n: u32) -> u8 {
    ((n >> 7u32) & 0x1F) as u8
}

/// Bits [14:12].
pub open spec fn funct3_of(n: u32) -> u8 {
    ((n >> 12u32) & 0x7) as u8
}

/// Bits [19:15].
pub open spec fn rs1_of(n: u32) -> u8 {
    ((n >> 15u32) & 0x1F) as u8
}

/// Bits [24:20].
pub open spec fn rs2_of(n: u32) -> u8 {
    ((n >> 20u32) & 0x1F) as u8
}

/// Bits [31:25].
pub open spec fn funct7_of(n: u32) -> u8 {
    ((n >> 25u32) & 0x7F) as u8
}

/// Two's-complement value of a 12-bit field.
pub open spec fn sign_extend_12(f: u32) -> i16 {
    if f >= 0x800 {
        (f - 0x1000) as i16
    } else {
        f as i16
    }
}

/// Two's-complement value of a 13-bit field.
pub open spec fn sign_extend_13(f: u32) -> i16 {
    if f >= 0x1000 {
        (f - 0x2000) as i16
    } else {
        f as i16
    }
}

/// I-format immediate: bits [31:20], signed.
pub open spec fn imm_i_of(n: u32) -> i16 {
    sign_extend_12((n >> 20u32) & 0xFFF)
}

/// The raw 12-bit S-format immediate: bits [31:25] above bits [11:7].
pub open spec fn imm_s_field(n: u32) -> u32 {
    (((n >> 25u32) & 0x7F) << 5u32) | ((n >> 7u32) & 0x1F)
}

/// S-format immediate, signed.
pub open spec fn imm_s_of(n: u32) -> i16 {
    sign_extend_12(imm_s_field(n))
}

/// The raw 13-bit B-format offset: imm[12] is bit 31, imm[11] is bit 7,
/// imm[10:5] are bits [30:25], imm[4:1] are bits [11:8]; imm[0] is zero.
pub open spec fn imm_b_field(n: u32) -> u32 {
    (((n >> 31u32) & 0x1) << 12u32) | (((n >> 7u32) & 0x1) << 11u32) | (((n >> 25u32) & 0x3F)
        << 5u32) | (((n >> 8u32) & 0xF) << 1u32)
}

/// B-format offset, signed and always even.
pub open spec fn imm_b_of(n: u32) -> i16 {
    sign_extend_13(imm_b_field(n))
}

/// Bits [18:12] moved back to their place (the upper-immediate field as
/// far as this decoder reads it).
pub open spec fn imm_j_of(n: u32) -> i32 {
    (((n >> 12u32) & 0x7F) << 12u32) as i32
}

// ---------------------------------------------------------------------
// Packing
// ---------------------------------------------------------------------

pub open spec fn pack_r(opcode: u8, rd: u8, funct3: u8, rs1: u8, rs2: u8, funct7: u8) -> u32 {
    ((opcode & 0x7F) as u32) | (((rd & 0x1F) as u32) << 7u32) | (((funct3 & 0x7) as u32)
        << 12u32) | (((rs1 & 0x1F) as u32) << 15u32) | (((rs2 & 0x1F) as u32) << 20u32) | (((
    funct7 & 0x7F) as u32) << 25u32)
}

pub open spec fn pack_i(opcode: u8, funct3: u8, rd: u8, rs1: u8, imm: i16) -> u32 {
    ((opcode & 0x7F) as u32) | (((funct3 & 0x7) as u32) << 12u32) | (((rd & 0x1F) as u32)
        << 7u32) | (((rs1 & 0x1F) as u32) << 15u32) | (((imm as u32) & 0xFFF) << 20u32)
}

/// `rs1` is the base register, `rs2` the register whose value is stored.
pub open spec fn pack_s(opcode: u8, funct3: u8, rs1: u8, rs2: u8, imm: i16) -> u32 {
    ((opcode & 0x7F) as u32) | (((imm as u32) & 0x1F) << 7u32) | (((funct3 & 0x7) as u32)
        << 12u32) | (((rs1 & 0x1F) as u32) << 15u32) | (((rs2 & 0x1F) as u32) << 20u32) | ((((
    imm as u32) >> 5u32) & 0x7F) << 25u32)
}

/// Bit 0 of `imm` is not stored.
pub open spec fn pack_b(opcode: u8, funct3: u8, rs1: u8, rs2: u8, imm: i16) -> u32 {
    ((opcode & 0x7F) as u32) | ((((imm as u32) >> 11u32) & 0x1) << 7u32) | ((((imm as u32)
        >> 1u32) & 0xF) << 8u32) | (((funct3 & 0x7) as u32) << 12u32) | (((rs1 & 0x1F) as u32)
        << 15u32) | (((rs2 & 0x1F) as u32) << 20u32) | ((((imm as u32) >> 5u32) & 0x3F)
        << 25u32) | ((((imm as u32) >> 12u32) & 0x1) << 31u32)
}

/// The range of each field.
pub proof fn lemma_field_bounds(n: u32)
    ensures
        opcode_of(n) < 128,
        rd_of(n) < 32,
        funct3_of(n) < 8,
        rs1_of(n) < 32,
        rs2_of(n) < 32,
        funct7_of(n) < 128,
        -2048 <= imm_i_of(n) <= 2047,
        -2048 <= imm_s_of(n) <= 2047,
        -4096 <= imm_b_of(n) <= 4095,
{
    assert({
        &&& opcode_of(n) < 128
        &&& rd_of(n) < 32
        &&& funct3_of(n) < 8
        &&& rs1_of(n) < 32
        &&& rs2_of(n) < 32
        &&& funct7_of(n) < 128
        &&& (n >> 20u32) & 0xFFF < 0x1000
        &&& imm_s_field(n) < 0x1000
        &&& imm_b_field(n) < 0x2000
    }) by (bit_vector);
}

// ---------------------------------------------------------------------
// Field extraction
// ---------------------------------------------------------------------

fn opcode_f_u32(n: u32) -> (r: u8)
    ensures
        r == opcode_of(n),
{
    (n & 0x7F) as u8
}

fn rd_f_u32(n: u32) -> (r: u8)
    ensures
        r == rd_of(n),
{
    ((n >> 7) & 0x1F) as u8
}

fn funct3_f_u32(n: u32) -> (r: u8)
    ensures
        r == funct3_of(n),
{
    ((n >> 12) & 0x7) as u8
}

fn rs1_f_u32(n: u32) -> (r: u8)
    ensures
        r == rs1_of(n),
{
    ((n >> 15) & 0x1F) as u8
}

fn rs2_f_u32(n: u32) -> (r: u8)
    ensures
        r == rs2_of(n),
{
    ((n >> 20) & 0x1F) as u8
}

fn funct7_f_u32(n: u32) -> (r: u8)
    ensures
        r == funct7_of(n),
{
    ((n >> 25) & 0x7F) as u8
}

fn sign_extend_12_exec(f: u32) -> (r: i16)
    requires
        f < 0x1000,
    ensures
        r == sign_extend_12(f),
{
    if f >= 0x800 {
        (f as i32 - 0x1000) as i16
    } else {
        f as i16
    }
}

fn imm_i_f_u32(n: u32) -> (r: i16)
    ensures
        r == imm_i_of(n),
{
    let f = (n >> 20) & 0xFFF;
    assert(((n >> 20u32) & 0xFFF) < 0x1000) by (bit_vector);
    sign_extend_12_exec(f)
}

fn imm_b_f_u32(n: u32) -> (r: i16)
    ensures
        r == imm_b_of(n),
{
    let f = ((n >> 31) & 0x1) << 12 | ((n >> 7) & 0x1) << 11 | ((n >> 25) & 0x3F) << 5 | ((n >> 8)
        & 0xF) << 1;
    assert(imm_b_field(n) < 0x2000) by (bit_vector);
    if f >= 0x1000 {
        (f as i32 - 0x2000) as i16
    } else {
        f as i16
    }
}

fn imm_s_f_u32(n: u32) -> (r: i16)
    ensures
        r == imm_s_of(n),
{
    let f = ((n >> 25) & 0x7F) << 5 | (n >> 7) & 0x1F;
    assert(imm_s_field(n) < 0x1000) by (bit_vector);
    sign_extend_12_exec(f)
}

fn imm_j_f_u32(n: u32) -> (r: i32)
    ensures
        r == imm_j_of(n),
{
    (((n >> 12) & 0x7F) << 12) as i32
}

// ---------------------------------------------------------------------
// Decoded views of a word, one per format
// ---------------------------------------------------------------------

/// A word read as register-register instruction.
#[derive(Debug)]
pub struct RInstruction {
    pub opcode: u8,
    pub rd: u8,
    pub funct3: u8,
    pub rs1: u8,
    pub rs2: u8,
    pub funct7: u8,
}

impl RInstruction {
    pub fn new(n: u32) -> (r: RInstruction)
        ensures
            r.opcode == opcode_of(n),
            r.rd == rd_of(n),
            r.funct3 == funct3_of(n),
            r.rs1 == rs1_of(n),
            r.rs2 == rs2_of(n),
            r.funct7 == funct7_of(n),
    {
        RInstruction {
            opcode: opcode_f_u32(n),
            rd: rd_f_u32(n),
            funct3: funct3_f_u32(n),
            rs1: rs1_f_u32(n),
            rs2: rs2_f_u32(n),
            funct7: funct7_f_u32(n),
        }
    }
}

/// A word read as register-immediate instruction (ALU, load, halt).
#[derive(Debug)]
pub struct IInstruction {
    pub opcode: u8,
    pub rd: u8,
    pub funct3: u8,
    pub rs1: u8,
    pub imm: i16,
}

impl IInstruction {
    pub fn new(n: u32) -> (r: Self)
        ensures
            r.opcode == opcode_of(n),
            r.rd == rd_of(n),
            r.funct3 == funct3_of(n),
            r.rs1 == rs1_of(n),
            r.imm == imm_i_of(n),
    {
        Self {
            opcode: opcode_f_u32(n),
            rd: rd_f_u32(n),
            funct3: funct3_f_u32(n),
            rs1: rs1_f_u32(n),
            imm: imm_i_f_u32(n),
        }
    }
}

/// A word read as conditional branch.
#[derive(Debug)]
pub struct BInstruction {
    pub opcode: u8,
    pub rs1: u8,
    pub rs2: u8,
    pub funct3: u8,
    pub imm: i16,
}

impl BInstruction {
    pub fn new(n: u32) -> (r: Self)
        ensures
            r.opcode == opcode_of(n),
            r.funct3 == funct3_of(n),
            r.rs1 == rs1_of(n),
            r.rs2 == rs2_of(n),
            r.imm == imm_b_of(n),
    {
        Self {
            opcode: opcode_f_u32(n),
            funct3: funct3_f_u32(n),
            rs1: rs1_f_u32(n),
            rs2: rs2_f_u32(n),
            imm: imm_b_f_u32(n),
        }
    }
}

/// A word read as store.
#[derive(Debug)]
pub struct SInstruction {
    pub opcode: u8,
    pub rs1: u8,
    pub rs2: u8,
    pub funct3: u8,
    pub imm: i16,
}

impl SInstruction {
    pub fn new(n: u32) -> (r: Self)
        ensures
            r.opcode == opcode_of(n),
            r.funct3 == funct3_of(n),
            r.rs1 == rs1_of(n),
            r.rs2 == rs2_of(n),
            r.imm == imm_s_of(n),
    {
        Self {
            opcode: opcode_f_u32(n),
            funct3: funct3_f_u32(n),
            rs1: rs1_f_u32(n),
            rs2: rs2_f_u32(n),
            imm: imm_s_f_u32(n),
        }
    }
}

/// A word read as jump-style instruction; not executed by the CPU.
#[derive(Debug)]
pub struct JInstruction {
    pub opcode: u8,
    pub rd: u8,
    pub imm: i32,
}

impl JInstruction {
    pub fn new(n: u32) -> (r: Self)
        ensures
            r.opcode == opcode_of(n),
            r.rd == rd_of(n),
            r.imm == imm_j_of(n),
    {
        Self { opcode: opcode_f_u32(n), rd: rd_f_u32(n), imm: imm_j_f_u32(n) }
    }
}

// ---------------------------------------------------------------------
// Round trips between packing and field extraction
// ---------------------------------------------------------------------

/// Packing R-format fields and reading them back gives the same fields.
pub proof fn lemma_round_trip_r(opcode: u8, rd: u8, funct3: u8, rs1: u8, rs2: u8, funct7: u8)
    requires
        opcode < 128,
        rd < 32,
        funct3 < 8,
        rs1 < 32,
        rs2 < 32,
        funct7 < 128,
    ensures
        opcode_of(pack_r(opcode, rd, funct3, rs1, rs2, funct7)) == opcode,
        rd_of(pack_r(opcode, rd, funct3, rs1, rs2, funct7)) == rd,
        funct3_of(pack_r(opcode, rd, funct3, rs1, rs2, funct7)) == funct3,
        rs1_of(pack_r(opcode, rd, funct3, rs1, rs2, funct7)) == rs1,
        rs2_of(pack_r(opcode, rd, funct3, rs1, rs2, funct7)) == rs2,
        funct7_of(pack_r(opcode, rd, funct3, rs1, rs2, funct7)) == funct7,
{
    assert({
        let w = pack_r(opcode, rd, funct3, rs1, rs2, funct7);
        &&& opcode_of(w) == opcode
        &&& rd_of(w) == rd
        &&& funct3_of(w) == funct3
        &&& rs1_of(w) == rs1
        &&& rs2_of(w) == rs2
        &&& funct7_of(w) == funct7
    }) by (bit_vector)
        requires
            opcode < 128,
            rd < 32,
            funct3 < 8,
            rs1 < 32,
            rs2 < 32,
            funct7 < 128,
    ;
}

/// Packing I-format fields and reading them back gives the same fields,
/// for every immediate in [-2048, 2047].
pub proof fn lemma_round_trip_i(opcode: u8, funct3: u8, rd: u8, rs1: u8, imm: i16)
    requires
        opcode < 128,
        funct3 < 8,
        rd < 32,
        rs1 < 32,
        -2048 <= imm <= 2047,
    ensures
        opcode_of(pack_i(opcode, funct3, rd, rs1, imm)) == opcode,
        funct3_of(pack_i(opcode, funct3, rd, rs1, imm)) == funct3,
        rd_of(pack_i(opcode, funct3, rd, rs1, imm)) == rd,
        rs1_of(pack_i(opcode, funct3, rd, rs1, imm)) == rs1,
        imm_i_of(pack_i(opcode, funct3, rd, rs1, imm)) == imm,
{
    assert({
        let w = pack_i(opcode, funct3, rd, rs1, imm);
        &&& opcode_of(w) == opcode
        &&& funct3_of(w) == funct3
        &&& rd_of(w) == rd
        &&& rs1_of(w) == rs1
        &&& imm_i_of(w) == imm
    }) by (bit_vector)
        requires
            opcode < 128,
            funct3 < 8,
            rd < 32,
            rs1 < 32,
            -2048 <= imm <= 2047,
    ;
}

/// Packing S-format fields and reading them back gives the same fields,
/// for every immediate in [-2048, 2047].
pub proof fn lemma_round_trip_s(opcode: u8, funct3: u8, rs1: u8, rs2: u8, imm: i16)
    requires
        opcode < 128,
        funct3 < 8,
        rs1 < 32,
        rs2 < 32,
        -2048 <= imm <= 2047,
    ensures
        opcode_of(pack_s(opcode, funct3, rs1, rs2, imm)) == opcode,
        funct3_of(pack_s(opcode, funct3, rs1, rs2, imm)) == funct3,
        rs1_of(pack_s(opcode, funct3, rs1, rs2, imm)) == rs1,
        rs2_of(pack_s(opcode, funct3, rs1, rs2, imm)) == rs2,
        imm_s_of(pack_s(opcode, funct3, rs1, rs2, imm)) == imm,
{
    assert({
        let w = pack_s(opcode, funct3, rs1, rs2, imm);
        &&& opcode_of(w) == opcode
        &&& funct3_of(w) == funct3
        &&& rs1_of(w) == rs1
        &&& rs2_of(w) == rs2
        &&& imm_s_of(w) == imm
    }) by (bit_vector)
        requires
            opcode < 128,
            funct3 < 8,
            rs1 < 32,
            rs2 < 32,
            -2048 <= imm <= 2047,
    ;
}

/// Packing B-format fields and reading them back gives the same fields,
/// for every even offset in [-4096, 4094].
pub proof fn lemma_round_trip_b(opcode: u8, funct3: u8, rs1: u8, rs2: u8, imm: i16)
    requires
        opcode < 128,
        funct3 < 8,
        rs1 < 32,
        rs2 < 32,
        -4096 <= imm <= 4094,
        imm % 2 == 0,
    ensures
        opcode_of(pack_b(opcode, funct3, rs1, rs2, imm)) == opcode,
        funct3_of(pack_b(opcode, funct3, rs1, rs2, imm)) == funct3,
        rs1_of(pack_b(opcode, funct3, rs1, rs2, imm)) == rs1,
        rs2_of(pack_b(opcode, funct3, rs1, rs2, imm)) == rs2,
        imm_b_of(pack_b(opcode, funct3, rs1, rs2, imm)) == imm,
{
    assert(imm & 1 == 0) by (bit_vector)
        requires
            imm % 2 == 0,
    ;
    assert({
        let w = pack_b(opcode, funct3, rs1, rs2, imm);
        &&& opcode_of(w) == opcode
        &&& funct3_of(w) == funct3
        &&& rs1_of(w) == rs1
        &&& rs2_of(w) == rs2
        &&& imm_b_of(w) == imm
    }) by (bit_vector)
        requires
            opcode < 128,
            funct3 < 8,
            rs1 < 32,
            rs2 < 32,
            -4096 <= imm <= 4094,
            imm & 1 == 0,
    ;
}

/// Every word is the packing of its own R-format fields.
pub proof fn lemma_fields_determine_r(n: u32)
    ensures
        pack_r(opcode_of(n), rd_of(n), funct3_of(n), rs1_of(n), rs2_of(n), funct7_of(n)) == n,
{
    assert(pack_r(opcode_of(n), rd_of(n), funct3_of(n), rs1_of(n), rs2_of(n), funct7_of(n)) == n)
        by (bit_vector);
}

/// Every word is the packing of its own I-format fields.
pub proof fn lemma_fields_determine_i(n: u32)
    ensures
        pack_i(opcode_of(n), funct3_of(n), rd_of(n), rs1_of(n), imm_i_of(n)) == n,
{
    assert(pack_i(opcode_of(n), funct3_of(n), rd_of(n), rs1_of(n), imm_i_of(n)) == n)
        by (bit_vector);
}

/// Every word is the packing of its own S-format fields.
pub proof fn lemma_fields_determine_s(n: u32)
    ensures
        pack_s(opcode_of(n), funct3_of(n), rs1_of(n), rs2_of(n), imm_s_of(n)) == n,
{
    assert(pack_s(opcode_of(n), funct3_of(n), rs1_of(n), rs2_of(n), imm_s_of(n)) == n)
        by (bit_vector);
}

/// Every word is the packing of its own B-format fields.
pub proof fn lemma_fields_determine_b(n: u32)
    ensures
        pack_b(opcode_of(n), funct3_of(n), rs1_of(n), rs2_of(n), imm_b_of(n)) == n,
{
    assert(pack_b(opcode_of(n), funct3_of(n), rs1_of(n), rs2_of(n), imm_b_of(n)) == n)
        by (bit_vector);
}

} // verus!
