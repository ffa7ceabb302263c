//! The assembler: source text to program lines and labels, and program
//! lines to machine words.
//!
//! `read_source` says which lines and labels a source yields, and
//! `assembled` which words (or which error) a program gives; `Assembler`'s
//! methods are proved to compute exactly these.
use vstd::prelude::*;

use crate::cpu::{
    MEM_START, Machine, OPCODE_BRANCH, branch_taken, byte_of, can_step, execute, reg,
    wrap32,
};
use crate::instruction::{
    InstructionType, funct3_of, funct7_of, imm_b_of, imm_i_of, imm_s_of, lemma_round_trip_b,
    lemma_round_trip_i, lemma_round_trip_r, lemma_round_trip_s, opcode_of, pack_b, pack_i, pack_r,
    pack_s, rd_of, rs1_of, rs2_of,
};
use crate::text::{
    COMMENT_MARKER, LABEL_DELIMITER, NUMBER_CAP, before, chars_of, find_char,
    is_blank, is_blank_exec, number_of, parse_number, parse_register, prefix_before,
    lemma_split_lines_nonempty, register_of, same_chars, skip_first, split_lines, strip_cr,
    strip_cr_exec, tokenize, tokens, views, is_word, operand_line, register_text, number_text,
    lemma_register_text, lemma_number_text, lemma_tokens_operand_line,
    lemma_operand_line_no_paren,
};

verus! {

/// The halt instruction (`ebreak`): opcode 0x73 with immediate 1.
pub const EBREAK: u32 = 0b00000000000100000000000001110011;

/// Smallest immediate of the I and S formats (12 bits, signed).
pub const IMM_MIN: i64 = -2048;

/// Largest immediate of the I and S formats (12 bits, signed).
pub const IMM_MAX: i64 = 2047;

/// Smallest branch offset (13 bits, signed, even).
pub const BRANCH_MIN: i64 = -4096;

/// Largest branch offset (13 bits, signed, even).
pub const BRANCH_MAX: i64 = 4094;

/// Why a program cannot be assembled; each carries the index of the
/// offending instruction.
#[derive(Debug, Clone, Copy, PartialEq, Eq, Structural)]
pub enum AsmError {
    /// The mnemonic is not one of the supported instructions.
    UnknownMnemonic(usize),
    /// Wrong number or kind of operands, or an unknown label.
    MalformedInstruction(usize),
    /// A register id outside [0, 31].
    InvalidRegister(usize),
    /// An immediate (or label offset) the format cannot hold: outside
    /// [-2048, 2047], or for a branch outside [-4096, 4094] or odd.
    ImmediateOutOfRange(usize),
}

// ---------------------------------------------------------------------
// The model
// ---------------------------------------------------------------------

/// Program lines, in order, and labels with the index of the instruction
/// they stand before, in order of declaration.
pub struct ProgramModel {
    pub program: Seq<Seq<char>>,
    pub labels: Seq<(Seq<char>, nat)>,
}

pub open spec fn empty_model() -> ProgramModel {
    ProgramModel { program: Seq::empty(), labels: Seq::empty() }
}

/// One source line read into the model: the comment goes, a blank line
/// adds nothing, a line with a label delimiter declares the label named by
/// what precedes the delimiter, any other line is an instruction.
pub open spec fn read_line(p: ProgramModel, raw: Seq<char>) -> ProgramModel {
    let l = before(strip_cr(raw), COMMENT_MARKER);
    if is_blank(l) {
        p
    } else if l.contains(LABEL_DELIMITER) {
        ProgramModel {
            labels: p.labels.push((before(l, LABEL_DELIMITER), p.program.len())),
            ..p
        }
    } else {
        ProgramModel { program: p.program.push(l), ..p }
    }
}

pub open spec fn read_lines(ls: Seq<Seq<char>>) -> ProgramModel
    decreases ls.len(),
{
    if ls.len() == 0 {
        empty_model()
    } else {
        read_line(read_lines(ls.drop_last()), ls.last())
    }
}

/// The program and labels that a source text gives.
pub open spec fn read_source(s: Seq<char>) -> ProgramModel {
    read_lines(split_lines(s))
}

/// The instruction index of the label `name`; a label declared twice
/// stands where it was declared last.
pub open spec fn label_index(labels: Seq<(Seq<char>, nat)>, name: Seq<char>) -> Option<nat>
    decreases labels.len(),
{
    if labels.len() == 0 {
        None
    } else if labels.last().0 == name {
        Some(labels.last().1)
    } else {
        label_index(labels.drop_last(), name)
    }
}

/// The table of supported mnemonics: format, opcode, funct3, and funct7
/// (or, for I-format, an immediate constant).
pub open spec fn mnemonic_info(m: Seq<char>) -> Option<(InstructionType, u8, u8, u8)> {
    if m == "add"@ {
        Some((InstructionType::RInstr, 0b0110011, 0x0, 0x00))
    } else if m == "sub"@ {
        Some((InstructionType::RInstr, 0b0110011, 0x0, 0x20))
    } else if m == "xor"@ {
        Some((InstructionType::RInstr, 0b0110011, 0x4, 0x00))
    } else if m == "or"@ {
        Some((InstructionType::RInstr, 0b0110011, 0x6, 0x00))
    } else if m == "and"@ {
        Some((InstructionType::RInstr, 0b0110011, 0x7, 0x00))
    } else if m == "sll"@ {
        Some((InstructionType::RInstr, 0b0110011, 0x1, 0x00))
    } else if m == "srl"@ {
        Some((InstructionType::RInstr, 0b0110011, 0x5, 0x00))
    } else if m == "sra"@ {
        Some((InstructionType::RInstr, 0b0110011, 0x5, 0x20))
    } else if m == "addi"@ {
        Some((InstructionType::IInstr, 0b0010011, 0x0, 0x00))
    } else if m == "xori"@ {
        Some((InstructionType::IInstr, 0b0010011, 0x4, 0x00))
    } else if m == "ori"@ {
        Some((InstructionType::IInstr, 0b0010011, 0x6, 0x00))
    } else if m == "andi"@ {
        Some((InstructionType::IInstr, 0b0010011, 0x7, 0x00))
    } else if m == "beq"@ {
        Some((InstructionType::BInstr, 0b1100011, 0x0, 0x00))
    } else if m == "bne"@ {
        Some((InstructionType::BInstr, 0b1100011, 0x1, 0x00))
    } else if m == "blt"@ {
        Some((InstructionType::BInstr, 0b1100011, 0x4, 0x00))
    } else if m == "bge"@ {
        Some((InstructionType::BInstr, 0b1100011, 0x5, 0x00))
    } else if m == "sw"@ {
        Some((InstructionType::SInstr, 0b0100011, 0x2, 0x00))
    } else if m == "lw"@ {
        Some((InstructionType::IInstr, 0b0000011, 0x2, 0x00))
    } else if m == "ebreak"@ {
        Some((InstructionType::IInstr, 0b1110011, 0x00, 0x1))
    } else {
        None
    }
}

/// The mnemonic that stops assembly.
pub open spec fn is_halt(m: Seq<char>) -> bool {
    m == "ebreak"@
}

/// The value of an immediate operand at instruction `index`: a label gives
/// its byte offset from this instruction, anything else must be a number.
pub open spec fn imm_operand(t: Seq<char>, labels: Seq<(Seq<char>, nat)>, index: nat) -> Option<
    int,
> {
    match label_index(labels, t) {
        Some(k) => Some((k - index) * 4),
        None => number_of(t),
    }
}

/// Whether the format can hold immediate `v`: a branch offset is even
/// and in [-4096, 4094], any other immediate in [-2048, 2047].
pub open spec fn in_imm_range(v: int, branch: bool) -> bool {
    if branch {
        BRANCH_MIN <= v <= BRANCH_MAX && v % 2 == 0
    } else {
        IMM_MIN <= v <= IMM_MAX
    }
}

/// The operands of an R-format line.
pub open spec fn r_operands(line: Seq<char>) -> Seq<Seq<char>> {
    skip_first(tokens(line, false))
}

/// The operands of an I/S/B-format line, in the order (register, register,
/// immediate); the form `imm(reg)` has its last two swapped into place.
pub open spec fn isb_operands(line: Seq<char>) -> Seq<Seq<char>> {
    let o = skip_first(tokens(line, true));
    if line.contains('(') && o.len() == 3 {
        seq![o[0], o[2], o[1]]
    } else {
        o
    }
}

/// The three register ids of an R-format line.
pub open spec fn r_fields(line: Seq<char>, index: nat) -> Result<(u8, u8, u8), AsmError> {
    let o = r_operands(line);
    if o.len() != 3 {
        Err(AsmError::MalformedInstruction(index as usize))
    } else {
        match (register_of(o[0]), register_of(o[1]), register_of(o[2])) {
            (Some(a), Some(b), Some(c)) => if a >= 32 || b >= 32 || c >= 32 {
                Err(AsmError::InvalidRegister(index as usize))
            } else {
                Ok((a as u8, b as u8, c as u8))
            },
            _ => Err(AsmError::MalformedInstruction(index as usize)),
        }
    }
}

/// The two register ids and the immediate of an I/S/B-format line;
/// `branch` says whether it is a B-format line.
pub open spec fn isb_fields(
    line: Seq<char>,
    labels: Seq<(Seq<char>, nat)>,
    index: nat,
    branch: bool,
) -> Result<
    (u8, u8, i16),
    AsmError,
> {
    let o = isb_operands(line);
    if o.len() != 3 {
        Err(AsmError::MalformedInstruction(index as usize))
    } else {
        match (register_of(o[0]), register_of(o[1]), imm_operand(o[2], labels, index)) {
            (Some(a), Some(b), Some(v)) => if a >= 32 || b >= 32 {
                Err(AsmError::InvalidRegister(index as usize))
            } else if !in_imm_range(v, branch) {
                Err(AsmError::ImmediateOutOfRange(index as usize))
            } else {
                Ok((a as u8, b as u8, v as i16))
            },
            _ => Err(AsmError::MalformedInstruction(index as usize)),
        }
    }
}

/// The word for operands `d` under table entry `info`. For S-format the
/// first register is the value stored and the second the base; for
/// B-format they are the two compared registers.
pub open spec fn encode_isb(info: (InstructionType, u8, u8, u8), d: (u8, u8, i16)) -> u32 {
    match info.0 {
        InstructionType::SInstr => pack_s(info.1, info.2, d.1, d.0, d.2),
        InstructionType::BInstr => pack_b(info.1, info.2, d.0, d.1, d.2),
        _ => pack_i(info.1, info.2, d.0, d.1, d.2),
    }
}

/// What the line at `index` assembles to: `Ok(None)` for the halt, which
/// ends the program.
pub open spec fn encode_line(line: Seq<char>, labels: Seq<(Seq<char>, nat)>, index: nat) -> Result<
    Option<u32>,
    AsmError,
> {
    let t = tokens(line, false);
    if t.len() == 0 {
        Err(AsmError::MalformedInstruction(index as usize))
    } else if is_halt(t[0]) {
        Ok(None)
    } else {
        match mnemonic_info(t[0]) {
            None => Err(AsmError::UnknownMnemonic(index as usize)),
            Some(info) => if info.0 == InstructionType::RInstr {
                match r_fields(line, index) {
                    Ok(r) => Ok(Some(pack_r(info.1, r.0, info.2, r.1, r.2, info.3))),
                    Err(e) => Err(e),
                }
            } else {
                match isb_fields(line, labels, index, info.0 == InstructionType::BInstr) {
                    Ok(d) => Ok(Some(encode_isb(info, d))),
                    Err(e) => Err(e),
                }
            },
        }
    }
}

/// The words of the first `n` lines, and whether a halt was among them;
/// lines after a halt are not looked at, and the first error ends it all.
pub open spec fn assemble_prefix(
    program: Seq<Seq<char>>,
    labels: Seq<(Seq<char>, nat)>,
    n: nat,
) -> Result<(Seq<u32>, bool), AsmError>
    decreases n,
{
    if n == 0 {
        Ok((Seq::empty(), false))
    } else {
        match assemble_prefix(program, labels, (n - 1) as nat) {
            Err(e) => Err(e),
            Ok((ws, true)) => Ok((ws, true)),
            Ok((ws, false)) => match encode_line(program[n - 1], labels, (n - 1) as nat) {
                Err(e) => Err(e),
                Ok(None) => Ok((ws.push(EBREAK), true)),
                Ok(Some(w)) => Ok((ws.push(w), false)),
            },
        }
    }
}

/// The words a program assembles to, or the first error.
pub open spec fn assembled(m: ProgramModel) -> Result<Seq<u32>, AsmError> {
    match assemble_prefix(m.program, m.labels, m.program.len()) {
        Ok((ws, _)) => Ok(ws),
        Err(e) => Err(e),
    }
}

/// Once assembly has failed or halted, later lines change nothing.
proof fn lemma_prefix_settled(
    program: Seq<Seq<char>>,
    labels: Seq<(Seq<char>, nat)>,
    n: nat,
    m: nat,
)
    requires
        n <= m,
        !(assemble_prefix(program, labels, n) matches Ok((_, false))),
    ensures
        assemble_prefix(program, labels, m) == assemble_prefix(program, labels, n),
    decreases m - n,
{
    if n < m {
        lemma_prefix_settled(program, labels, n, (m - 1) as nat);
    }
}

// ---------------------------------------------------------------------
// The assembler
// ---------------------------------------------------------------------

struct Label {
    name: Vec<char>,
    index: usize,
}

pub struct Assembler {
    program: Vec<String>,
    labels: Vec<Label>,
}

pub open spec fn string_views(v: Seq<String>) -> Seq<Seq<char>> {
    v.map_values(|s: String| s@)
}

impl View for Assembler {
    type V = ProgramModel;

    closed spec fn view(&self) -> ProgramModel {
        ProgramModel {
            program: string_views(self.program@),
            labels: self.labels@.map_values(|l: Label| (l.name@, l.index as nat)),
        }
    }
}

/// Relies on `String`'s `FromIterator<char>`: the string holds the given
/// characters in order.
#[verifier::external_body]
fn string_from_chars(v: &Vec<char>) -> (r: String)
    ensures
        r@ == v@,
{
    v.iter().collect()
}

/// Looks `name` up in the mnemonic table.
pub fn get_info(name: &Vec<char>) -> (r: Option<(InstructionType, u8, u8, u8)>)
    ensures
        r == mnemonic_info(name@),
{
    if same_chars(name, &chars_of("add")) {
        Some((InstructionType::RInstr, 0b0110011, 0x0, 0x00))
    } else if same_chars(name, &chars_of("sub")) {
        Some((InstructionType::RInstr, 0b0110011, 0x0, 0x20))
    } else if same_chars(name, &chars_of("xor")) {
        Some((InstructionType::RInstr, 0b0110011, 0x4, 0x00))
    } else if same_chars(name, &chars_of("or")) {
        Some((InstructionType::RInstr, 0b0110011, 0x6, 0x00))
    } else if same_chars(name, &chars_of("and")) {
        Some((InstructionType::RInstr, 0b0110011, 0x7, 0x00))
    } else if same_chars(name, &chars_of("sll")) {
        Some((InstructionType::RInstr, 0b0110011, 0x1, 0x00))
    } else if same_chars(name, &chars_of("srl")) {
        Some((InstructionType::RInstr, 0b0110011, 0x5, 0x00))
    } else if same_chars(name, &chars_of("sra")) {
        Some((InstructionType::RInstr, 0b0110011, 0x5, 0x20))
    } else if same_chars(name, &chars_of("addi")) {
        Some((InstructionType::IInstr, 0b0010011, 0x0, 0x00))
    } else if same_chars(name, &chars_of("xori")) {
        Some((InstructionType::IInstr, 0b0010011, 0x4, 0x00))
    } else if same_chars(name, &chars_of("ori")) {
        Some((InstructionType::IInstr, 0b0010011, 0x6, 0x00))
    } else if same_chars(name, &chars_of("andi")) {
        Some((InstructionType::IInstr, 0b0010011, 0x7, 0x00))
    } else if same_chars(name, &chars_of("beq")) {
        Some((InstructionType::BInstr, 0b1100011, 0x0, 0x00))
    } else if same_chars(name, &chars_of("bne")) {
        Some((InstructionType::BInstr, 0b1100011, 0x1, 0x00))
    } else if same_chars(name, &chars_of("blt")) {
        Some((InstructionType::BInstr, 0b1100011, 0x4, 0x00))
    } else if same_chars(name, &chars_of("bge")) {
        Some((InstructionType::BInstr, 0b1100011, 0x5, 0x00))
    } else if same_chars(name, &chars_of("sw")) {
        Some((InstructionType::SInstr, 0b0100011, 0x2, 0x00))
    } else if same_chars(name, &chars_of("lw")) {
        Some((InstructionType::IInstr, 0b0000011, 0x2, 0x00))
    } else if same_chars(name, &chars_of("ebreak")) {
        Some((InstructionType::IInstr, 0b1110011, 0x00, 0x1))
    } else {
        None
    }
}

impl Assembler {
    pub fn view_program(&self) -> (r: &Vec<String>)
        ensures
            string_views(r@) == self@.program,
    {
        &self.program
    }

    /// Reads the program lines and labels of a source text.
    pub fn from_source(source: &str) -> (r: Assembler)
        ensures
            r@ == read_source(source@),
    {
        let s = chars_of(source);
        let mut assembler = Assembler { program: Vec::new(), labels: Vec::new() };
        let mut cur: Vec<char> = Vec::new();
        let mut i: usize = 0;
        assert(assembler@.program =~= empty_model().program);
        assert(assembler@.labels =~= empty_model().labels);
        assert(split_lines(s@.subrange(0, 0)).drop_last() =~= Seq::<Seq<char>>::empty());
        while i < s.len()
            invariant
                i <= s.len(),
                assembler@ == read_lines(split_lines(s@.subrange(0, i as int)).drop_last()),
                cur@ == split_lines(s@.subrange(0, i as int)).last(),
            decreases s.len() - i,
        {
            let c = s[i];
            let ghost pre = s@.subrange(0, i as int);
            let ghost next = s@.subrange(0, i + 1);
            assert(next.drop_last() =~= pre);
            proof {
                lemma_split_lines_nonempty(pre);
            }
            let ghost lines = split_lines(pre);
            if c == '\n' {
                assert(split_lines(next).drop_last() =~= lines);
                assert(lines.drop_last().push(lines.last()) =~= lines);
                assembler.read_line(&cur);
                cur = Vec::new();
            } else {
                assert(split_lines(next).drop_last() =~= lines.drop_last());
                cur.push(c);
            }
            i += 1;
        }
        assert(s@.subrange(0, i as int) =~= s@);
        proof {
            lemma_split_lines_nonempty(s@);
        }
        assembler.read_line(&cur);
        assembler
    }

    /// Adds one source line.
    fn read_line(&mut self, raw: &Vec<char>)
        ensures
            final(self)@ == read_line(old(self)@, raw@),
    {
        let stripped = strip_cr_exec(raw);
        let l = prefix_before(&stripped, COMMENT_MARKER);
        if is_blank_exec(&l) {
            return;
        }
        if find_char(&l, LABEL_DELIMITER) < l.len() {
            let name = prefix_before(&l, LABEL_DELIMITER);
            let label = Label { name, index: self.program.len() };
            self.labels.push(label);
            assert(self@.labels =~= old(self)@.labels.push((label.name@, label.index as nat)));
        } else {
            let line = string_from_chars(&l);
            self.program.push(line);
            assert(self@.program =~= old(self)@.program.push(l@));
        }
    }

    /// The index of the instruction that label `name` stands before.
    fn find_label(&self, name: &Vec<char>) -> (r: Option<usize>)
        ensures
            match label_index(self@.labels, name@) {
                Some(k) => r == Some(k as usize) && k <= usize::MAX,
                None => r is None,
            },
    {
        let ghost all = self@.labels;
        let mut i = self.labels.len();
        assert(all.subrange(0, i as int) =~= all);
        while i > 0
            invariant
                i <= self.labels.len(),
                all == self@.labels,
                label_index(all, name@) == label_index(all.subrange(0, i as int), name@),
            decreases i,
        {
            let ghost sub = all.subrange(0, i as int);
            assert(sub.drop_last() =~= all.subrange(0, i - 1));
            assert(sub.last() == (self.labels[i - 1].name@, self.labels[i - 1].index as nat));
            if same_chars(&self.labels[i - 1].name, name) {
                return Some(self.labels[i - 1].index);
            }
            i -= 1;
        }
        None
    }

    /// The value of the immediate operand `t` at instruction `index`. A
    /// value of magnitude `NUMBER_CAP` or more may come back as another
    /// such value of the same sign.
    fn immediate(&self, t: &Vec<char>, index: usize) -> (r: Option<i64>)
        ensures
            match imm_operand(t@, self@.labels, index as nat) {
                Some(v) => r matches Some(x) && (-NUMBER_CAP < v < NUMBER_CAP ==> x == v) && (v
                    >= NUMBER_CAP ==> x >= NUMBER_CAP) && (v <= -NUMBER_CAP ==> x <= -NUMBER_CAP),
                None => r is None,
            },
    {
        match self.find_label(t) {
            Some(k) => {
                let d: usize = if k >= index {
                    k - index
                } else {
                    index - k
                };
                let m: i64 = if d > NUMBER_CAP as usize {
                    NUMBER_CAP as i64
                } else {
                    d as i64
                };
                if k >= index {
                    Some(m * 4)
                } else {
                    Some(-(m * 4))
                }
            },
            None => parse_number(t),
        }
    }

    /// The three registers of an R-format line.
    fn extract_vals(&self, line: &Vec<char>, index: usize) -> (r: Result<(u8, u8, u8), AsmError>)
        ensures
            r == r_fields(line@, index as nat),
    {
        let toks = tokenize(line, false);
        if toks.len() != 4 {
            return Err(AsmError::MalformedInstruction(index));
        }
        assert(r_operands(line@) =~= views(toks@).drop_first());
        match (parse_register(&toks[1]), parse_register(&toks[2]), parse_register(&toks[3])) {
            (Some(a), Some(b), Some(c)) => {
                if a >= 32 || b >= 32 || c >= 32 {
                    Err(AsmError::InvalidRegister(index))
                } else {
                    Ok((a as u8, b as u8, c as u8))
                }
            },
            _ => Err(AsmError::MalformedInstruction(index)),
        }
    }

    /// The two registers and the immediate of an I/S/B-format line.
    fn extract_vals_i(&self, line: &Vec<char>, index: usize, branch: bool) -> (r: Result<
        (u8, u8, i16),
        AsmError,
    >)
        ensures
            r == isb_fields(line@, self@.labels, index as nat, branch),
    {
        let toks = tokenize(line, true);
        if toks.len() != 4 {
            return Err(AsmError::MalformedInstruction(index));
        }
        let displaced = find_char(line, '(') < line.len();
        let (j1, j2): (usize, usize) = if displaced {
            (3, 2)
        } else {
            (2, 3)
        };
        let ghost o = views(toks@).drop_first();
        assert(isb_operands(line@) =~= if displaced {
            seq![o[0], o[2], o[1]]
        } else {
            o
        });
        match (parse_register(&toks[1]), parse_register(&toks[j1]), self.immediate(&toks[j2], index)) {
            (Some(a), Some(b), Some(v)) => {
                if a >= 32 || b >= 32 {
                    Err(AsmError::InvalidRegister(index))
                } else if (branch && (v < BRANCH_MIN || v > BRANCH_MAX || v % 2 != 0)) || (!branch
                    && (v < IMM_MIN || v > IMM_MAX)) {
                    Err(AsmError::ImmediateOutOfRange(index))
                } else {
                    Ok((a as u8, b as u8, v as i16))
                }
            },
            _ => Err(AsmError::MalformedInstruction(index)),
        }
    }

    fn info_to_r(&self, info: &(InstructionType, u8, u8, u8), registers: &(u8, u8, u8)) -> (r: u32)
        ensures
            r == pack_r(info.1, registers.0, info.2, registers.1, registers.2, info.3),
    {
        let mut binary = (info.1 & 0x7F) as u32;  // opcode
        binary |= ((registers.0 & 0x1F) as u32) << 7;  // rd
        binary |= ((info.2 & 0x7) as u32) << 12;  // funct3
        binary |= ((registers.1 & 0x1F) as u32) << 15;  // rs1
        binary |= ((registers.2 & 0x1F) as u32) << 20;  // rs2
        binary |= ((info.3 & 0x7F) as u32) << 25;  // funct7
        binary
    }

    fn info_to_i(&self, info: &(InstructionType, u8, u8, u8), data: &(u8, u8, i16)) -> (r: u32)
        ensures
            r == pack_i(info.1, info.2, data.0, data.1, data.2),
    {
        let mut binary = (info.1 & 0x7F) as u32;  // opcode
        binary |= ((info.2 & 0x7) as u32) << 12;  // funct3
        binary |= ((data.0 & 0x1F) as u32) << 7;  // rd
        binary |= ((data.1 & 0x1F) as u32) << 15;  // rs1
        binary |= ((data.2 as u32) & 0xFFF) << 20;  // imm
        binary
    }

    /// `data.0` is the register stored, `data.1` the base.
    fn info_to_s(&self, info: &(InstructionType, u8, u8, u8), data: &(u8, u8, i16)) -> (r: u32)
        ensures
            r == pack_s(info.1, info.2, data.1, data.0, data.2),
    {
        let imm = data.2 as u32;
        let mut binary = (info.1 & 0x7F) as u32;
        binary |= (imm & 0x1F) << 7;
        binary |= ((info.2 & 0x7) as u32) << 12;  // funct3
        binary |= ((data.1 & 0x1F) as u32) << 15;  // rs1
        binary |= ((data.0 & 0x1F) as u32) << 20;  // rs2
        binary |= ((imm >> 5) & 0x7F) << 25;
        binary
    }

    fn info_to_b(&self, info: &(InstructionType, u8, u8, u8), data: &(u8, u8, i16)) -> (r: u32)
        ensures
            r == pack_b(info.1, info.2, data.0, data.1, data.2),
    {
        let imm = data.2 as u32;
        let mut binary = (info.1 & 0x7F) as u32;  // opcode
        binary |= ((imm >> 11) & 0x1) << 7;
        binary |= ((imm >> 1) & 0xF) << 8;
        binary |= ((info.2 & 0x7) as u32) << 12;  // funct3
        binary |= ((data.0 & 0x1F) as u32) << 15;  // rs1
        binary |= ((data.1 & 0x1F) as u32) << 20;  // rs2
        binary |= ((imm >> 5) & 0x3F) << 25;
        binary |= ((imm >> 12) & 0x1) << 31;
        binary
    }

    /// What the line at `index` assembles to; `Ok(None)` for the halt.
    fn assemble_line(&self, line: &Vec<char>, index: usize) -> (r: Result<Option<u32>, AsmError>)
        ensures
            r == encode_line(line@, self@.labels, index as nat),
    {
        let toks = tokenize(line, false);
        if toks.len() == 0 {
            return Err(AsmError::MalformedInstruction(index));
        }
        assert(views(toks@)[0] == toks@[0]@);
        if same_chars(&toks[0], &chars_of("ebreak")) {
            return Ok(None);
        }
        let val = match get_info(&toks[0]) {
            Some(v) => v,
            None => {
                return Err(AsmError::UnknownMnemonic(index));
            },
        };
        match val.0 {
            InstructionType::RInstr => match self.extract_vals(line, index) {
                Ok(regs) => Ok(Some(self.info_to_r(&val, &regs))),
                Err(e) => Err(e),
            },
            InstructionType::IInstr => match self.extract_vals_i(line, index, false) {
                Ok(d) => Ok(Some(self.info_to_i(&val, &d))),
                Err(e) => Err(e),
            },
            InstructionType::SInstr => match self.extract_vals_i(line, index, false) {
                Ok(d) => Ok(Some(self.info_to_s(&val, &d))),
                Err(e) => Err(e),
            },
            InstructionType::BInstr => match self.extract_vals_i(line, index, true) {
                Ok(d) => Ok(Some(self.info_to_b(&val, &d))),
                Err(e) => Err(e),
            },
        }
    }

    /// Assembles the program into words, up to and including the first
    /// halt; the first malformed line fails the whole program.
    pub fn assemble(&self) -> (r: Result<Vec<u32>, AsmError>)
        ensures
            match assembled(self@) {
                Ok(ws) => r matches Ok(v) && v@ == ws,
                Err(e) => r == Err::<Vec<u32>, AsmError>(e),
            },
    {
        let mut bins: Vec<u32> = Vec::new();
        let mut index: usize = 0;
        let ghost program = self@.program;
        let ghost labels = self@.labels;
        while index < self.program.len()
            invariant
                index <= self.program.len(),
                program == self@.program,
                labels == self@.labels,
                program.len() == self.program.len(),
                assemble_prefix(program, labels, index as nat) == Ok::<(Seq<u32>, bool), AsmError>(
                    (bins@, false),
                ),
            decreases self.program.len() - index,
        {
            let line = chars_of(self.program[index].as_str());
            assert(line@ == program[index as int]);
            match self.assemble_line(&line, index) {
                Err(e) => {
                    proof {
                        lemma_prefix_settled(program, labels, (index + 1) as nat, program.len());
                    }
                    return Err(e);
                },
                Ok(None) => {
                    bins.push(EBREAK);
                    proof {
                        lemma_prefix_settled(program, labels, (index + 1) as nat, program.len());
                    }
                    return Ok(bins);
                },
                Ok(Some(bin)) => {
                    bins.push(bin);
                },
            }
            index += 1;
        }
        Ok(bins)
    }
}

// ---------------------------------------------------------------------
// Laws
// ---------------------------------------------------------------------

/// For every supported mnemonic and all operands in range (registers in
/// [0, 31], immediates in [-2048, 2047], branch offsets even and in
/// [-4096, 4094]), decoding the
/// word it assembles to gives back the table's opcode and selectors and the
/// operands.
pub proof fn lemma_mnemonic_round_trip(m: Seq<char>, a: u8, b: u8, c: u8, imm: i16)
    requires
        mnemonic_info(m) is Some,
        a < 32,
        b < 32,
        c < 32,
        in_imm_range(imm as int, mnemonic_info(m) matches Some((InstructionType::BInstr, _, _, _))),
    ensures
        ({
            let info = mnemonic_info(m)->0;
            match info.0 {
                InstructionType::RInstr => {
                    let w = pack_r(info.1, a, info.2, b, c, info.3);
                    &&& opcode_of(w) == info.1
                    &&& rd_of(w) == a
                    &&& funct3_of(w) == info.2
                    &&& rs1_of(w) == b
                    &&& rs2_of(w) == c
                    &&& funct7_of(w) == info.3
                },
                InstructionType::IInstr => {
                    let w = encode_isb(info, (a, b, imm));
                    &&& opcode_of(w) == info.1
                    &&& funct3_of(w) == info.2
                    &&& rd_of(w) == a
                    &&& rs1_of(w) == b
                    &&& imm_i_of(w) == imm
                },
                InstructionType::SInstr => {
                    let w = encode_isb(info, (a, b, imm));
                    &&& opcode_of(w) == info.1
                    &&& funct3_of(w) == info.2
                    &&& rs2_of(w) == a
                    &&& rs1_of(w) == b
                    &&& imm_s_of(w) == imm
                },
                InstructionType::BInstr => {
                    let w = encode_isb(info, (a, b, imm));
                    &&& opcode_of(w) == info.1
                    &&& funct3_of(w) == info.2
                    &&& rs1_of(w) == a
                    &&& rs2_of(w) == b
                    &&& imm_b_of(w) == imm
                },
            }
        }),
{
    let info = mnemonic_info(m)->0;
    assert(info.1 < 128 && info.2 < 8 && info.3 < 128);
    match info.0 {
        InstructionType::RInstr => lemma_round_trip_r(info.1, a, info.2, b, c, info.3),
        InstructionType::IInstr => lemma_round_trip_i(info.1, info.2, a, b, imm),
        InstructionType::SInstr => lemma_round_trip_s(info.1, info.2, b, a, imm),
        InstructionType::BInstr => lemma_round_trip_b(info.1, info.2, a, b, imm),
    }
}

/// A branch at instruction `j` whose target names a label standing before
/// instruction `k` is assembled with the offset `(k - j) * 4`; executed
/// from its own address (`MEM_START + 4 * j`) and taken, it leaves the PC
/// on instruction `k`.
pub proof fn lemma_label_branch(
    line: Seq<char>,
    labels: Seq<(Seq<char>, nat)>,
    j: nat,
    k: nat,
    w: u32,
    s: Machine,
)
    requires
        encode_line(line, labels, j) == Ok::<Option<u32>, AsmError>(Some(w)),
        opcode_of(w) == OPCODE_BRANCH,
        isb_operands(line).len() == 3,
        label_index(labels, isb_operands(line)[2]) == Some(k),
        s.pc == MEM_START + 4 * j,
        can_step(s),
        branch_taken(funct3_of(w), reg(s, rs1_of(w)), reg(s, rs2_of(w))),
    ensures
        imm_b_of(w) == (k - j) * 4,
        execute(s, w).pc == MEM_START + 4 * k,
{
    let t = tokens(line, false);
    let info = mnemonic_info(t[0])->0;
    let v = (k - j) * 4;
    assert(info.1 < 128 && info.2 < 8 && info.3 < 128);
    if info.0 == InstructionType::RInstr {
        let r = r_fields(line, j)->Ok_0;
        lemma_round_trip_r(info.1, r.0, info.2, r.1, r.2, info.3);
    } else {
        let d = isb_fields(line, labels, j, info.0 == InstructionType::BInstr)->Ok_0;
        assert(imm_operand(isb_operands(line)[2], labels, j) == Some(v));
        assert(d.2 == v);
        match info.0 {
            InstructionType::IInstr => lemma_round_trip_i(info.1, info.2, d.0, d.1, d.2),
            InstructionType::SInstr => lemma_round_trip_s(info.1, info.2, d.1, d.0, d.2),
            _ => {
                assert(d.2 % 2 == 0);
                lemma_round_trip_b(info.1, info.2, d.0, d.1, d.2);
            },
        }
        assert(info.0 == InstructionType::BInstr);
        assert(imm_b_of(w) == v);
        assert(s.pc + v - 4 >= 0);
        assert(wrap32(s.pc + v - 4 + 4) == MEM_START + 4 * k);
    }
}

/// Each word of an assembled prefix is what its line encodes to; only a
/// final halt stands for a line that encodes to no word.
pub proof fn lemma_prefix_words(
    program: Seq<Seq<char>>,
    labels: Seq<(Seq<char>, nat)>,
    n: nat,
    ws: Seq<u32>,
    halted: bool,
)
    requires
        n <= program.len(),
        assemble_prefix(program, labels, n) == Ok::<(Seq<u32>, bool), AsmError>((ws, halted)),
    ensures
        ws.len() <= n,
        forall|i: int|
            0 <= i < ws.len() ==> #[trigger] encode_line(program[i], labels, i as nat) == if halted
                && i == ws.len() - 1 {
                Ok::<Option<u32>, AsmError>(None)
            } else {
                Ok(Some(ws[i]))
            },
        halted ==> ws.len() > 0 && ws.last() == EBREAK,
        !halted ==> ws.len() == n,
    decreases n,
{
    if n > 0 {
        match assemble_prefix(program, labels, (n - 1) as nat) {
            Ok((pws, ph)) => {
                lemma_prefix_words(program, labels, (n - 1) as nat, pws, ph);
                if !ph {
                    assert forall|i: int| 0 <= i < ws.len() implies #[trigger] encode_line(
                        program[i],
                        labels,
                        i as nat,
                    ) == if halted && i == ws.len() - 1 {
                        Ok::<Option<u32>, AsmError>(None)
                    } else {
                        Ok(Some(ws[i]))
                    } by {
                        if i < pws.len() {
                            assert(ws[i] == pws[i]);
                        }
                    }
                }
            },
            Err(_) => {},
        }
    }
}

/// In an assembled program, a branch at instruction `j` whose target
/// names a label standing before instruction `k` carries the offset
/// `(k - j) * 4`; executed from its own address and taken, it leaves the
/// PC on instruction `k`.
pub proof fn lemma_program_branch_lands(m: ProgramModel, ws: Seq<u32>, j: nat, k: nat, s: Machine)
    requires
        assembled(m) == Ok::<Seq<u32>, AsmError>(ws),
        j < ws.len(),
        opcode_of(ws[j as int]) == OPCODE_BRANCH,
        isb_operands(m.program[j as int]).len() == 3,
        label_index(m.labels, isb_operands(m.program[j as int])[2]) == Some(k),
        s.pc == MEM_START + 4 * j,
        can_step(s),
        branch_taken(funct3_of(ws[j as int]), reg(s, rs1_of(ws[j as int])), reg(s, rs2_of(ws[j as int]))),
    ensures
        imm_b_of(ws[j as int]) == (k - j) * 4,
        execute(s, ws[j as int]).pc == MEM_START + 4 * k,
{
    let h = assemble_prefix(m.program, m.labels, m.program.len())->Ok_0.1;
    lemma_prefix_words(m.program, m.labels, m.program.len(), ws, h);
    let i = j as int;
    assert(encode_line(m.program[i], m.labels, i as nat) == if h && i == ws.len() - 1 {
        Ok::<Option<u32>, AsmError>(None)
    } else {
        Ok(Some(ws[i]))
    });
    if h && j == ws.len() - 1 {
        assert(opcode_of(EBREAK) == 0x73) by (bit_vector);
    }
    lemma_label_branch(m.program[j as int], m.labels, j, k, ws[j as int], s);
}

/// Every supported mnemonic is a word with no parenthesis, and only
/// `ebreak` among them halts.
proof fn lemma_mnemonic_text(m: Seq<char>)
    requires
        mnemonic_info(m) is Some,
    ensures
        is_word(m, true),
        is_word(m, false),
        is_halt(m) ==> mnemonic_info(m) == Some((InstructionType::IInstr, 0b1110011u8, 0u8, 1u8)),
{
    reveal_strlit("add");
    reveal_strlit("sub");
    reveal_strlit("xor");
    reveal_strlit("or");
    reveal_strlit("and");
    reveal_strlit("sll");
    reveal_strlit("srl");
    reveal_strlit("sra");
    reveal_strlit("addi");
    reveal_strlit("xori");
    reveal_strlit("ori");
    reveal_strlit("andi");
    reveal_strlit("beq");
    reveal_strlit("bne");
    reveal_strlit("blt");
    reveal_strlit("bge");
    reveal_strlit("sw");
    reveal_strlit("lw");
    reveal_strlit("ebreak");
}

/// `w` decodes, in the format of table entry `info`, to the entry's
/// opcode and selectors and to the operands the assembler read: `a`, `b`,
/// `c` for R-format, `a`, `b`, `imm` for the others.
pub open spec fn decodes_to(
    info: (InstructionType, u8, u8, u8),
    w: u32,
    a: nat,
    b: nat,
    c: nat,
    imm: int,
) -> bool {
    &&& opcode_of(w) == info.1
    &&& funct3_of(w) == info.2
    &&& match info.0 {
        InstructionType::RInstr => rd_of(w) == a && rs1_of(w) == b && rs2_of(w) == c
            && funct7_of(w) == info.3,
        InstructionType::IInstr => rd_of(w) == a && rs1_of(w) == b && imm_i_of(w) == imm,
        InstructionType::SInstr => rs2_of(w) == a && rs1_of(w) == b && imm_s_of(w) == imm,
        InstructionType::BInstr => rs1_of(w) == a && rs2_of(w) == b && imm_b_of(w) == imm,
    }
}

/// For every supported register-register mnemonic `m` and registers `a`,
/// `b`, `c` in [0, 31], the one-line program `m xa, xb, xc` assembles to
/// one word, which decodes back to the table entry and to `a`, `b`, `c`.
pub proof fn lemma_r_line_round_trip(m: Seq<char>, a: nat, b: nat, c: nat)
    requires
        mnemonic_info(m) matches Some((InstructionType::RInstr, _, _, _)),
        a < 32,
        b < 32,
        c < 32,
    ensures
        ({
            let p = ProgramModel {
                program: seq![operand_line(m, register_text(a), register_text(b), register_text(c))],
                labels: Seq::empty(),
            };
            assembled(p) matches Ok(ws) && ws.len() == 1 && decodes_to(
                mnemonic_info(m)->0,
                ws[0],
                a,
                b,
                c,
                0,
            )
        }),
{
    let info = mnemonic_info(m)->0;
    let (ra, rb, rc) = (register_text(a), register_text(b), register_text(c));
    let line = operand_line(m, ra, rb, rc);
    lemma_mnemonic_text(m);
    lemma_register_text(a, false);
    lemma_register_text(b, false);
    lemma_register_text(c, false);
    lemma_tokens_operand_line(m, ra, rb, rc, false);
    assert(r_operands(line) =~= seq![ra, rb, rc]);
    assert(info.1 < 128 && info.2 < 8 && info.3 < 128);
    lemma_round_trip_r(info.1, a as u8, info.2, b as u8, c as u8, info.3);
    let w = pack_r(info.1, a as u8, info.2, b as u8, c as u8, info.3);
    assert(encode_line(line, Seq::empty(), 0) == Ok::<Option<u32>, AsmError>(Some(w)));
    let p = ProgramModel { program: seq![line], labels: Seq::empty() };
    assert(assemble_prefix(p.program, p.labels, 0) == Ok::<(Seq<u32>, bool), AsmError>(
        (Seq::empty(), false),
    ));
    assert(Seq::<u32>::empty().push(w) =~= seq![w]);
}

/// For every supported mnemonic `m` of the I, S or B format other than
/// the halt, registers `a`, `b` in [0, 31] and an immediate `v` the format
/// holds, the one-line program `m xa, xb, v` assembles to one word, which
/// decodes back to the table entry and to `a`, `b`, `v`.
pub proof fn lemma_isb_line_round_trip(m: Seq<char>, a: nat, b: nat, v: int)
    requires
        mnemonic_info(m) is Some,
        !(mnemonic_info(m) matches Some((InstructionType::RInstr, _, _, _))),
        !is_halt(m),
        a < 32,
        b < 32,
        in_imm_range(v, mnemonic_info(m) matches Some((InstructionType::BInstr, _, _, _))),
    ensures
        ({
            let p = ProgramModel {
                program: seq![operand_line(m, register_text(a), register_text(b), number_text(v))],
                labels: Seq::empty(),
            };
            assembled(p) matches Ok(ws) && ws.len() == 1 && decodes_to(
                mnemonic_info(m)->0,
                ws[0],
                a,
                b,
                0,
                v,
            )
        }),
{
    let info = mnemonic_info(m)->0;
    let (ra, rb, nv) = (register_text(a), register_text(b), number_text(v));
    let line = operand_line(m, ra, rb, nv);
    lemma_mnemonic_text(m);
    lemma_register_text(a, true);
    lemma_register_text(b, true);
    lemma_number_text(v, true);
    lemma_register_text(a, false);
    lemma_register_text(b, false);
    lemma_number_text(v, false);
    lemma_tokens_operand_line(m, ra, rb, nv, true);
    lemma_tokens_operand_line(m, ra, rb, nv, false);
    lemma_operand_line_no_paren(m, ra, rb, nv);
    assert(isb_operands(line) =~= seq![ra, rb, nv]);
    let branch = info.0 == InstructionType::BInstr;
    assert(isb_fields(line, Seq::empty(), 0, branch) == Ok::<(u8, u8, i16), AsmError>(
        (a as u8, b as u8, v as i16),
    ));
    assert(info.1 < 128 && info.2 < 8 && info.3 < 128);
    let w = encode_isb(info, (a as u8, b as u8, v as i16));
    match info.0 {
        InstructionType::IInstr => lemma_round_trip_i(info.1, info.2, a as u8, b as u8, v as i16),
        InstructionType::SInstr => lemma_round_trip_s(info.1, info.2, b as u8, a as u8, v as i16),
        _ => lemma_round_trip_b(info.1, info.2, a as u8, b as u8, v as i16),
    }
    assert(encode_line(line, Seq::empty(), 0) == Ok::<Option<u32>, AsmError>(Some(w)));
    let p = ProgramModel { program: seq![line], labels: Seq::empty() };
    assert(assemble_prefix(p.program, p.labels, 0) == Ok::<(Seq<u32>, bool), AsmError>(
        (Seq::empty(), false),
    ));
    assert(Seq::<u32>::empty().push(w) =~= seq![w]);
}

/// In an assembled program whose line `j` reads `m xa, xb, name`, for a
/// branch mnemonic `m` and a label `name` declared before instruction `k`,
/// word `j` branches from register `a` and `b` by `(k - j) * 4`.
pub proof fn lemma_branch_line_offset(
    p: ProgramModel,
    ws: Seq<u32>,
    j: nat,
    m: Seq<char>,
    a: nat,
    b: nat,
    name: Seq<char>,
    k: nat,
)
    requires
        mnemonic_info(m) matches Some((InstructionType::BInstr, _, _, _)),
        a < 32,
        b < 32,
        is_word(name, true),
        is_word(name, false),
        label_index(p.labels, name) == Some(k),
        j < p.program.len(),
        p.program[j as int] == operand_line(m, register_text(a), register_text(b), name),
        assembled(p) == Ok::<Seq<u32>, AsmError>(ws),
        j < ws.len(),
    ensures
        imm_b_of(ws[j as int]) == (k - j) * 4,
        rs1_of(ws[j as int]) == a,
        rs2_of(ws[j as int]) == b,
{
    let info = mnemonic_info(m)->0;
    let (ra, rb) = (register_text(a), register_text(b));
    let line = operand_line(m, ra, rb, name);
    lemma_mnemonic_text(m);
    lemma_register_text(a, true);
    lemma_register_text(b, true);
    lemma_register_text(a, false);
    lemma_register_text(b, false);
    lemma_tokens_operand_line(m, ra, rb, name, true);
    lemma_tokens_operand_line(m, ra, rb, name, false);
    lemma_operand_line_no_paren(m, ra, rb, name);
    assert(isb_operands(line) =~= seq![ra, rb, name]);
    let h = assemble_prefix(p.program, p.labels, p.program.len())->Ok_0.1;
    lemma_prefix_words(p.program, p.labels, p.program.len(), ws, h);
    let i = j as int;
    assert(encode_line(p.program[i], p.labels, i as nat) == if h && i == ws.len() - 1 {
        Ok::<Option<u32>, AsmError>(None)
    } else {
        Ok(Some(ws[i]))
    });
    let v = (k - j) * 4;
    assert(imm_operand(name, p.labels, j) == Some(v));
    assert(in_imm_range(v, true));
    assert(info.1 < 128 && info.2 < 8);
    lemma_round_trip_b(info.1, info.2, a as u8, b as u8, v as i16);
}

/// A line with an unknown mnemonic, once assembly reaches it, fails the
/// whole program: no words come out at all.
pub proof fn lemma_unknown_mnemonic_fails(m: ProgramModel, j: nat)
    requires
        j < m.program.len(),
        assemble_prefix(m.program, m.labels, j) matches Ok((_, false)),
        tokens(m.program[j as int], false).len() > 0,
        !is_halt(tokens(m.program[j as int], false)[0]),
        mnemonic_info(tokens(m.program[j as int], false)[0]) is None,
    ensures
        assembled(m) == Err::<Seq<u32>, AsmError>(AsmError::UnknownMnemonic(j as usize)),
{
    assert(assemble_prefix(m.program, m.labels, j + 1) == Err::<(Seq<u32>, bool), AsmError>(
        AsmError::UnknownMnemonic(j as usize),
    ));
    lemma_prefix_settled(m.program, m.labels, j + 1, m.program.len());
}

// ---------------------------------------------------------------------
// Program image
// ---------------------------------------------------------------------

/// The words laid out little-endian, one after another, as the CPU loads
/// them.
pub fn words_to_bytes(words: &Vec<u32>) -> (r: Vec<u8>)
    requires
        4 * words.len() <= usize::MAX,
    ensures
        r@.len() == 4 * words.len(),
        forall|p: int| 0 <= p < r@.len() ==> #[trigger] r@[p] == byte_of(words@[p / 4], (p % 4) as u32),
{
    let mut r: Vec<u8> = Vec::new();
    let mut i: usize = 0;
    while i < words.len()
        invariant
            i <= words.len(),
            4 * words.len() <= usize::MAX,
            r@.len() == 4 * i,
            forall|p: int|
                0 <= p < r@.len() ==> #[trigger] r@[p] == byte_of(words@[p / 4], (p % 4) as u32),
        decreases words.len() - i,
    {
        let w = words[i];
        assert({
            &&& byte_of(w, 0) == (w & 0xFF) as u8
            &&& byte_of(w, 1) == ((w >> 8) & 0xFF) as u8
            &&& byte_of(w, 2) == ((w >> 16) & 0xFF) as u8
            &&& byte_of(w, 3) == ((w >> 24) & 0xFF) as u8
        }) by (bit_vector);
        r.push((w & 0xFF) as u8);
        r.push(((w >> 8) & 0xFF) as u8);
        r.push(((w >> 16) & 0xFF) as u8);
        r.push(((w >> 24) & 0xFF) as u8);
        assert forall|p: int| 0 <= p < r@.len() implies #[trigger] r@[p] == byte_of(
            words@[p / 4],
            (p % 4) as u32,
        ) by {
            if p >= 4 * i {
                assert(p / 4 == i);
            }
        }
        i += 1;
    }
    r
}

} // verus!
