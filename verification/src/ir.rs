//! The register-machine instructions that relations compile to, their byte
//! encoding, and the sizes used to compute jump offsets.
//!
//! Encoding of one instruction: an opcode byte `4 * code + ss`, where the two
//! low bits `ss` say which sources are immediates, then the destination
//! register (or a little-endian `i16` jump offset), then the sources: a
//! register is one byte, an immediate eight little-endian bytes.

use vstd::prelude::*;
use crate::token::Decimal;

verus! {

/// Where an instruction reads a value from.
#[derive(PartialEq, Eq, Structural, Debug, Clone, Copy)]
pub enum Source {
    /// a register holding an intermediate value, which may be overwritten
    RegInter(usize),
    /// a register holding a variable, which must not be overwritten
    RegVar(usize),
    Bool(bool),
    Int(i64),
    /// a real immediate, kept as the exact literal
    Float(Decimal),
}

#[derive(PartialEq, Eq, Debug, Clone, Copy)]
pub enum Instruction {
    IADD { dest: usize, src1: Source, src2: Source },
    ISUB { dest: usize, src1: Source, src2: Source },
    IMUL { dest: usize, src1: Source, src2: Source },
    IDIV { dest: usize, src1: Source, src2: Source },
    IPOW { dest: usize, src1: Source, src2: Source },
    IABS { dest: usize, src: Source },
    IMOD { dest: usize, src1: Source, src2: Source },
    FADD { dest: usize, src1: Source, src2: Source },
    FSUB { dest: usize, src1: Source, src2: Source },
    FMUL { dest: usize, src1: Source, src2: Source },
    FDIV { dest: usize, src1: Source, src2: Source },
    FPOW { dest: usize, src1: Source, src2: Source },
    FABS { dest: usize, src: Source },
    AND { dest: usize, src1: Source, src2: Source },
    OR { dest: usize, src1: Source, src2: Source },
    NOT { dest: usize, src: Source },
    XOR { dest: usize, src1: Source, src2: Source },
    I2F { dest: usize, src: Source },
    JMP { offset: i16 },
    IJEQ { offset: i16, src1: Source, src2: Source },
    IJNE { offset: i16, src1: Source, src2: Source },
    IJLT { offset: i16, src1: Source, src2: Source },
    IJGT { offset: i16, src1: Source, src2: Source },
    IJLE { offset: i16, src1: Source, src2: Source },
    IJGE { offset: i16, src1: Source, src2: Source },
    FJEQ { offset: i16, src1: Source, src2: Source },
    FJNE { offset: i16, src1: Source, src2: Source },
    FJLT { offset: i16, src1: Source, src2: Source },
    FJGT { offset: i16, src1: Source, src2: Source },
    FJLE { offset: i16, src1: Source, src2: Source },
    FJGE { offset: i16, src1: Source, src2: Source },
    IEQ { dest: usize, src1: Source, src2: Source },
    INE { dest: usize, src1: Source, src2: Source },
    ILT { dest: usize, src1: Source, src2: Source },
    IGT { dest: usize, src1: Source, src2: Source },
    ILE { dest: usize, src1: Source, src2: Source },
    IGE { dest: usize, src1: Source, src2: Source },
    FEQ { dest: usize, src1: Source, src2: Source },
    FNE { dest: usize, src1: Source, src2: Source },
    FLT { dest: usize, src1: Source, src2: Source },
    FGT { dest: usize, src1: Source, src2: Source },
    FLE { dest: usize, src1: Source, src2: Source },
    FGE { dest: usize, src1: Source, src2: Source },
    MOV { dest: usize, src: Source },
    RET { src: Source },
    ERR { code: u8, src: Option<Source> },
    RND { dest: usize },
}

/// A source is an immediate (not a register).
pub open spec fn is_immediate(s: Source) -> bool {
    !(s is RegInter || s is RegVar)
}

/// Bytes taken by a source: one for a register, eight for an immediate.
pub open spec fn source_size(s: Source) -> nat {
    if is_immediate(s) { 8 } else { 1 }
}

/// The instructions that jump: `JMP` and the conditional jumps.
pub open spec fn is_jump(i: Instruction) -> bool {
    match i {
        Instruction::JMP { .. } | Instruction::IJEQ { .. } | Instruction::IJNE { .. }
        | Instruction::IJLT { .. } | Instruction::IJGT { .. } | Instruction::IJLE { .. }
        | Instruction::IJGE { .. } | Instruction::FJEQ { .. } | Instruction::FJNE { .. }
        | Instruction::FJLT { .. } | Instruction::FJGT { .. } | Instruction::FJLE { .. }
        | Instruction::FJGE { .. } => true,
        _ => false,
    }
}

/// The offset of a jump.
pub open spec fn jump_offset(i: Instruction) -> i16 {
    match i {
        Instruction::JMP { offset } => offset,
        Instruction::IJEQ { offset, .. } => offset,
        Instruction::IJNE { offset, .. } => offset,
        Instruction::IJLT { offset, .. } => offset,
        Instruction::IJGT { offset, .. } => offset,
        Instruction::IJLE { offset, .. } => offset,
        Instruction::IJGE { offset, .. } => offset,
        Instruction::FJEQ { offset, .. } => offset,
        Instruction::FJNE { offset, .. } => offset,
        Instruction::FJLT { offset, .. } => offset,
        Instruction::FJGT { offset, .. } => offset,
        Instruction::FJLE { offset, .. } => offset,
        Instruction::FJGE { offset, .. } => offset,
        _ => 0,
    }
}

/// The same instruction with its jump offset replaced (other instructions unchanged).
pub open spec fn with_offset(i: Instruction, o: i16) -> Instruction {
    match i {
        Instruction::JMP { .. } => Instruction::JMP { offset: o },
        Instruction::IJEQ { src1, src2, .. } => Instruction::IJEQ { offset: o, src1, src2 },
        Instruction::IJNE { src1, src2, .. } => Instruction::IJNE { offset: o, src1, src2 },
        Instruction::IJLT { src1, src2, .. } => Instruction::IJLT { offset: o, src1, src2 },
        Instruction::IJGT { src1, src2, .. } => Instruction::IJGT { offset: o, src1, src2 },
        Instruction::IJLE { src1, src2, .. } => Instruction::IJLE { offset: o, src1, src2 },
        Instruction::IJGE { src1, src2, .. } => Instruction::IJGE { offset: o, src1, src2 },
        Instruction::FJEQ { src1, src2, .. } => Instruction::FJEQ { offset: o, src1, src2 },
        Instruction::FJNE { src1, src2, .. } => Instruction::FJNE { offset: o, src1, src2 },
        Instruction::FJLT { src1, src2, .. } => Instruction::FJLT { offset: o, src1, src2 },
        Instruction::FJGT { src1, src2, .. } => Instruction::FJGT { offset: o, src1, src2 },
        Instruction::FJLE { src1, src2, .. } => Instruction::FJLE { offset: o, src1, src2 },
        Instruction::FJGE { src1, src2, .. } => Instruction::FJGE { offset: o, src1, src2 },
        other => other,
    }
}

/// Bytes taken by one encoded instruction.
pub open spec fn instruction_size(i: Instruction) -> nat {
    match i {
        Instruction::IABS { src, .. } | Instruction::FABS { src, .. } | Instruction::NOT { src, .. }
        | Instruction::I2F { src, .. } | Instruction::MOV { src, .. } => 2 + source_size(src),
        Instruction::JMP { .. } => 3,
        Instruction::IJEQ { src1, src2, .. } | Instruction::IJNE { src1, src2, .. }
        | Instruction::IJLT { src1, src2, .. } | Instruction::IJGT { src1, src2, .. }
        | Instruction::IJLE { src1, src2, .. } | Instruction::IJGE { src1, src2, .. }
        | Instruction::FJEQ { src1, src2, .. } | Instruction::FJNE { src1, src2, .. }
        | Instruction::FJLT { src1, src2, .. } | Instruction::FJGT { src1, src2, .. }
        | Instruction::FJLE { src1, src2, .. } | Instruction::FJGE { src1, src2, .. } =>
            3 + source_size(src1) + source_size(src2),
        Instruction::RET { src } => 1 + source_size(src),
        Instruction::ERR { src, .. } => match src {
            Some(s) => 2 + source_size(s),
            None => 2,
        },
        Instruction::RND { .. } => 2,
        Instruction::IADD { src1, src2, .. } | Instruction::ISUB { src1, src2, .. }
        | Instruction::IMUL { src1, src2, .. } | Instruction::IDIV { src1, src2, .. }
        | Instruction::IPOW { src1, src2, .. } | Instruction::IMOD { src1, src2, .. }
        | Instruction::FADD { src1, src2, .. } | Instruction::FSUB { src1, src2, .. }
        | Instruction::FMUL { src1, src2, .. } | Instruction::FDIV { src1, src2, .. }
        | Instruction::FPOW { src1, src2, .. } | Instruction::AND { src1, src2, .. }
        | Instruction::OR { src1, src2, .. } | Instruction::XOR { src1, src2, .. }
        | Instruction::IEQ { src1, src2, .. } | Instruction::INE { src1, src2, .. }
        | Instruction::ILT { src1, src2, .. } | Instruction::IGT { src1, src2, .. }
        | Instruction::ILE { src1, src2, .. } | Instruction::IGE { src1, src2, .. }
        | Instruction::FEQ { src1, src2, .. } | Instruction::FNE { src1, src2, .. }
        | Instruction::FLT { src1, src2, .. } | Instruction::FGT { src1, src2, .. }
        | Instruction::FLE { src1, src2, .. } | Instruction::FGE { src1, src2, .. } =>
            2 + source_size(src1) + source_size(src2),
    }
}

/// Bytes taken by a sequence of encoded instructions.
pub open spec fn code_size(s: Seq<Instruction>) -> nat
    decreases s.len(),
{
    if s.len() == 0 {
        0
    } else {
        code_size(s.drop_last()) + instruction_size(s.last())
    }
}

/// The size of a concatenation is the sum of the sizes.
pub proof fn lemma_code_size_append(a: Seq<Instruction>, b: Seq<Instruction>)
    ensures
        code_size(a + b) == code_size(a) + code_size(b),
    decreases b.len(),
{
    if b.len() == 0 {
        assert(a + b =~= a);
    } else {
        lemma_code_size_append(a, b.drop_last());
        assert((a + b).drop_last() =~= a + b.drop_last());
    }
}

/// Replacing one instruction by one of the same size keeps the code size.
pub proof fn lemma_code_size_update(s: Seq<Instruction>, k: int, i: Instruction)
    requires
        0 <= k < s.len(),
        instruction_size(i) == instruction_size(s[k]),
    ensures
        code_size(s.update(k, i)) == code_size(s),
{
    lemma_code_size_append(s.take(k), s.skip(k));
    lemma_code_size_append(s.take(k), s.update(k, i).skip(k));
    assert(s.take(k) + s.skip(k) =~= s);
    assert(s.take(k) + s.update(k, i).skip(k) =~= s.update(k, i));
    let t = s.skip(k);
    let u = s.update(k, i).skip(k);
    assert(t =~= seq![s[k]] + t.skip(1));
    assert(u =~= seq![i] + t.skip(1));
    lemma_code_size_append(seq![s[k]], t.skip(1));
    lemma_code_size_append(seq![i], t.skip(1));
    assert(seq![s[k]].drop_last() =~= Seq::<Instruction>::empty());
    assert(seq![i].drop_last() =~= Seq::<Instruction>::empty());
}

/// Number of bytes a source takes in the encoding.
pub fn get_num_source_bytes(source: &Source) -> (n: usize)
    ensures
        n == source_size(*source),
{
    match source {
        Source::RegInter(_) | Source::RegVar(_) => 1,
        _ => 8,
    }
}

/// Number of bytes one instruction takes in the encoding.
pub fn instruction_num_bytes(instruction: &Instruction) -> (n: usize)
    ensures
        n == instruction_size(*instruction),
{
    match instruction {
        Instruction::IABS { src, .. } | Instruction::FABS { src, .. } | Instruction::NOT { src, .. }
        | Instruction::I2F { src, .. } | Instruction::MOV { src, .. } => 2 + get_num_source_bytes(src),
        Instruction::JMP { .. } => 3,
        Instruction::IJEQ { src1, src2, .. } | Instruction::IJNE { src1, src2, .. }
        | Instruction::IJLT { src1, src2, .. } | Instruction::IJGT { src1, src2, .. }
        | Instruction::IJLE { src1, src2, .. } | Instruction::IJGE { src1, src2, .. }
        | Instruction::FJEQ { src1, src2, .. } | Instruction::FJNE { src1, src2, .. }
        | Instruction::FJLT { src1, src2, .. } | Instruction::FJGT { src1, src2, .. }
        | Instruction::FJLE { src1, src2, .. } | Instruction::FJGE { src1, src2, .. } =>
            3 + get_num_source_bytes(src1) + get_num_source_bytes(src2),
        Instruction::RET { src } => 1 + get_num_source_bytes(src),
        Instruction::ERR { src, .. } => match src {
            Some(s) => 2 + get_num_source_bytes(s),
            None => 2,
        },
        Instruction::RND { .. } => 2,
        Instruction::IADD { src1, src2, .. } | Instruction::ISUB { src1, src2, .. }
        | Instruction::IMUL { src1, src2, .. } | Instruction::IDIV { src1, src2, .. }
        | Instruction::IPOW { src1, src2, .. } | Instruction::IMOD { src1, src2, .. }
        | Instruction::FADD { src1, src2, .. } | Instruction::FSUB { src1, src2, .. }
        | Instruction::FMUL { src1, src2, .. } | Instruction::FDIV { src1, src2, .. }
        | Instruction::FPOW { src1, src2, .. } | Instruction::AND { src1, src2, .. }
        | Instruction::OR { src1, src2, .. } | Instruction::XOR { src1, src2, .. }
        | Instruction::IEQ { src1, src2, .. } | Instruction::INE { src1, src2, .. }
        | Instruction::ILT { src1, src2, .. } | Instruction::IGT { src1, src2, .. }
        | Instruction::ILE { src1, src2, .. } | Instruction::IGE { src1, src2, .. }
        | Instruction::FEQ { src1, src2, .. } | Instruction::FNE { src1, src2, .. }
        | Instruction::FLT { src1, src2, .. } | Instruction::FGT { src1, src2, .. }
        | Instruction::FLE { src1, src2, .. } | Instruction::FGE { src1, src2, .. } =>
            2 + get_num_source_bytes(src1) + get_num_source_bytes(src2),
    }
}

/// Number of bytes the encoded instructions take.
pub fn get_num_bytes(instructions: &[Instruction]) -> (n: usize)
    requires
        code_size(instructions@) <= usize::MAX,
    ensures
        n == code_size(instructions@),
{
    let mut num: usize = 0;
    let mut i: usize = 0;
    while i < instructions.len()
        invariant
            i <= instructions@.len(),
            num == code_size(instructions@.take(i as int)),
            code_size(instructions@) <= usize::MAX,
        decreases instructions@.len() - i,
    {
        proof {
            assert(instructions@.take(i + 1).drop_last() =~= instructions@.take(i as int));
            lemma_code_size_append(instructions@.take(i + 1), instructions@.skip(i + 1));
            assert(instructions@.take(i + 1) + instructions@.skip(i + 1) =~= instructions@);
        }
        num = num + instruction_num_bytes(&instructions[i]);
        i = i + 1;
    }
    assert(instructions@.take(i as int) =~= instructions@);
    num
}

/// The number of bytes `code[from..to]` takes, as a jump offset: the count
/// wrapped to 16 bits, as a cast to `i16` does.
pub fn jump_distance(code: &Vec<Instruction>, from: usize, to: usize) -> (r: i16)
    requires
        from <= to <= code@.len(),
    ensures
        r as u16 == code_size(code@.subrange(from as int, to as int)) % 65536,
{
    let mut sum: u16 = 0;
    let mut k: usize = from;
    assert(code@.subrange(from as int, from as int) =~= Seq::<Instruction>::empty());
    while k < to
        invariant
            from <= k <= to <= code@.len(),
            sum == code_size(code@.subrange(from as int, k as int)) % 65536,
        decreases to - k,
    {
        let ghost c = code_size(code@.subrange(from as int, k as int));
        assert(code@.subrange(from as int, k + 1).drop_last() =~= code@.subrange(from as int, k as int));
        let n = instruction_num_bytes(&code[k]);
        assert(n <= 19);
        proof {
            vstd::arithmetic::div_mod::lemma_add_mod_noop(c as int, n as int, 65536);
            vstd::arithmetic::div_mod::lemma_small_mod(n as nat, 65536);
        }
        sum = sum.wrapping_add(n as u16);
        k = k + 1;
    }
    let r = sum as i16;
    assert(r as u16 == sum) by (bit_vector)
        requires
            r == sum as i16,
    ;
    r
}

/// Adds `change` to the offset of a jump, wrapping around as `i16`
/// arithmetic does; other instructions are left as they are.
pub fn update_jmp_offset(inst: &mut Instruction, change: i16)
    ensures
        *final(inst) == with_offset(*old(inst), jump_offset(*old(inst)).wrapping_add(change)),
        !is_jump(*old(inst)) ==> *final(inst) == *old(inst),
{
    match inst {
        Instruction::JMP { offset } => *offset = offset.wrapping_add(change),
        Instruction::IJEQ { offset, .. } => *offset = offset.wrapping_add(change),
        Instruction::IJNE { offset, .. } => *offset = offset.wrapping_add(change),
        Instruction::IJLT { offset, .. } => *offset = offset.wrapping_add(change),
        Instruction::IJGT { offset, .. } => *offset = offset.wrapping_add(change),
        Instruction::IJLE { offset, .. } => *offset = offset.wrapping_add(change),
        Instruction::IJGE { offset, .. } => *offset = offset.wrapping_add(change),
        Instruction::FJEQ { offset, .. } => *offset = offset.wrapping_add(change),
        Instruction::FJNE { offset, .. } => *offset = offset.wrapping_add(change),
        Instruction::FJLT { offset, .. } => *offset = offset.wrapping_add(change),
        Instruction::FJGT { offset, .. } => *offset = offset.wrapping_add(change),
        Instruction::FJLE { offset, .. } => *offset = offset.wrapping_add(change),
        Instruction::FJGE { offset, .. } => *offset = offset.wrapping_add(change),
        _ => {},
    }
}

/// How an instruction is laid out in bytes: its opcode number and operands.
pub enum Layout {
    /// opcode, destination register, two sources
    Three { code: u8, dest: usize, src1: Source, src2: Source },
    /// opcode, destination register, one source
    Two { code: u8, dest: usize, src: Source },
    /// opcode, offset, two sources
    CondJump { code: u8, offset: i16, src1: Source, src2: Source },
    Jump { offset: i16 },
    Ret { src: Source },
    Error { code: u8, src: Option<Source> },
    Rnd { dest: usize },
}

/// The opcode number and operands of each instruction.
pub open spec fn layout(i: Instruction) -> Layout {
    match i {
        Instruction::IADD { dest, src1, src2 } => Layout::Three { code: 0, dest, src1, src2 },
        Instruction::ISUB { dest, src1, src2 } => Layout::Three { code: 1, dest, src1, src2 },
        Instruction::IMUL { dest, src1, src2 } => Layout::Three { code: 2, dest, src1, src2 },
        Instruction::IDIV { dest, src1, src2 } => Layout::Three { code: 3, dest, src1, src2 },
        Instruction::IPOW { dest, src1, src2 } => Layout::Three { code: 4, dest, src1, src2 },
        Instruction::IABS { dest, src } => Layout::Two { code: 5, dest, src },
        Instruction::IMOD { dest, src1, src2 } => Layout::Three { code: 6, dest, src1, src2 },
        Instruction::FADD { dest, src1, src2 } => Layout::Three { code: 8, dest, src1, src2 },
        Instruction::FSUB { dest, src1, src2 } => Layout::Three { code: 9, dest, src1, src2 },
        Instruction::FMUL { dest, src1, src2 } => Layout::Three { code: 10, dest, src1, src2 },
        Instruction::FDIV { dest, src1, src2 } => Layout::Three { code: 11, dest, src1, src2 },
        Instruction::FPOW { dest, src1, src2 } => Layout::Three { code: 12, dest, src1, src2 },
        Instruction::FABS { dest, src } => Layout::Two { code: 13, dest, src },
        Instruction::AND { dest, src1, src2 } => Layout::Three { code: 16, dest, src1, src2 },
        Instruction::OR { dest, src1, src2 } => Layout::Three { code: 17, dest, src1, src2 },
        Instruction::NOT { dest, src } => Layout::Two { code: 18, dest, src },
        Instruction::XOR { dest, src1, src2 } => Layout::Three { code: 19, dest, src1, src2 },
        Instruction::I2F { dest, src } => Layout::Two { code: 22, dest, src },
        Instruction::JMP { offset } => Layout::Jump { offset },
        Instruction::IJEQ { offset, src1, src2 } => Layout::CondJump { code: 34, offset, src1, src2 },
        Instruction::IJNE { offset, src1, src2 } => Layout::CondJump { code: 35, offset, src1, src2 },
        Instruction::IJLT { offset, src1, src2 } => Layout::CondJump { code: 36, offset, src1, src2 },
        Instruction::IJGT { offset, src1, src2 } => Layout::CondJump { code: 38, offset, src1, src2 },
        Instruction::IJLE { offset, src1, src2 } => Layout::CondJump { code: 37, offset, src1, src2 },
        Instruction::IJGE { offset, src1, src2 } => Layout::CondJump { code: 39, offset, src1, src2 },
        Instruction::FJEQ { offset, src1, src2 } => Layout::CondJump { code: 42, offset, src1, src2 },
        Instruction::FJNE { offset, src1, src2 } => Layout::CondJump { code: 43, offset, src1, src2 },
        Instruction::FJLT { offset, src1, src2 } => Layout::CondJump { code: 44, offset, src1, src2 },
        Instruction::FJGT { offset, src1, src2 } => Layout::CondJump { code: 46, offset, src1, src2 },
        Instruction::FJLE { offset, src1, src2 } => Layout::CondJump { code: 45, offset, src1, src2 },
        Instruction::FJGE { offset, src1, src2 } => Layout::CondJump { code: 47, offset, src1, src2 },
        Instruction::IEQ { dest, src1, src2 } => Layout::Three { code: 50, dest, src1, src2 },
        Instruction::INE { dest, src1, src2 } => Layout::Three { code: 51, dest, src1, src2 },
        Instruction::ILT { dest, src1, src2 } => Layout::Three { code: 52, dest, src1, src2 },
        Instruction::IGT { dest, src1, src2 } => Layout::Three { code: 54, dest, src1, src2 },
        Instruction::ILE { dest, src1, src2 } => Layout::Three { code: 53, dest, src1, src2 },
        Instruction::IGE { dest, src1, src2 } => Layout::Three { code: 55, dest, src1, src2 },
        Instruction::FEQ { dest, src1, src2 } => Layout::Three { code: 58, dest, src1, src2 },
        Instruction::FNE { dest, src1, src2 } => Layout::Three { code: 59, dest, src1, src2 },
        Instruction::FLT { dest, src1, src2 } => Layout::Three { code: 60, dest, src1, src2 },
        Instruction::FGT { dest, src1, src2 } => Layout::Three { code: 62, dest, src1, src2 },
        Instruction::FLE { dest, src1, src2 } => Layout::Three { code: 61, dest, src1, src2 },
        Instruction::FGE { dest, src1, src2 } => Layout::Three { code: 63, dest, src1, src2 },
        Instruction::MOV { dest, src } => Layout::Two { code: 48, dest, src },
        Instruction::RET { src } => Layout::Ret { src },
        Instruction::ERR { code, src } => Layout::Error { code, src },
        Instruction::RND { dest } => Layout::Rnd { dest },
    }
}

/// The eight little-endian bytes of `v`.
pub open spec fn le_u64(v: u64) -> Seq<u8> {
    seq![
        v as u8,
        (v >> 8u64) as u8,
        (v >> 16u64) as u8,
        (v >> 24u64) as u8,
        (v >> 32u64) as u8,
        (v >> 40u64) as u8,
        (v >> 48u64) as u8,
        (v >> 56u64) as u8,
    ]
}

/// The two little-endian bytes of a jump offset.
pub open spec fn le_i16(v: i16) -> Seq<u8> {
    seq![v as u8, ((v as u16) >> 8u16) as u8]
}

pub open spec fn imm_bit(s: Source) -> nat {
    if is_immediate(s) { 1 } else { 0 }
}

/// The bytes of a source: the register number, or the immediate as a
/// little-endian 64-bit word (`true` is 1, `false` 0). A real immediate
/// takes eight zero bytes here; its bits are written in afterwards (see
/// `FloatPatch`).
pub open spec fn source_bytes(s: Source) -> Seq<u8> {
    match s {
        Source::RegInter(r) => seq![r as u8],
        Source::RegVar(r) => seq![r as u8],
        Source::Bool(b) => le_u64(if b { 1u64 } else { 0u64 }),
        Source::Int(i) => le_u64(i as u64),
        Source::Float(_) => le_u64(0),
    }
}

/// The bytes of one instruction.
pub open spec fn encode(i: Instruction) -> Seq<u8> {
    match layout(i) {
        Layout::Three { code, dest, src1, src2 } =>
            seq![(4 * code + 2 * imm_bit(src1) + imm_bit(src2)) as u8, dest as u8]
                + source_bytes(src1) + source_bytes(src2),
        Layout::Two { code, dest, src } =>
            seq![(4 * code + 2 * imm_bit(src)) as u8, dest as u8] + source_bytes(src),
        Layout::CondJump { code, offset, src1, src2 } =>
            seq![(4 * code + 2 * imm_bit(src1) + imm_bit(src2)) as u8] + le_i16(offset)
                + source_bytes(src1) + source_bytes(src2),
        Layout::Jump { offset } => seq![128u8] + le_i16(offset),
        Layout::Ret { src } => seq![(160 + 2 * imm_bit(src)) as u8] + source_bytes(src),
        Layout::Error { code, src } => match src {
            Some(s) => seq![(164 + 2 + imm_bit(s)) as u8, code] + source_bytes(s),
            None => seq![164u8, code],
        },
        Layout::Rnd { dest } => seq![224u8, dest as u8],
    }
}

/// The bytes of a sequence of instructions, one after the other.
pub open spec fn encode_all(s: Seq<Instruction>) -> Seq<u8>
    decreases s.len(),
{
    if s.len() == 0 {
        Seq::empty()
    } else {
        encode_all(s.drop_last()) + encode(s.last())
    }
}

/// Lowering a concatenation gives the bytes of the first part followed by
/// those of the second: code can be lowered piece by piece.
pub proof fn lemma_encode_all_append(a: Seq<Instruction>, b: Seq<Instruction>)
    ensures
        encode_all(a + b) == encode_all(a) + encode_all(b),
    decreases b.len(),
{
    if b.len() == 0 {
        assert(a + b =~= a);
        assert(encode_all(a) + encode_all(b) =~= encode_all(a));
    } else {
        assert((a + b).drop_last() =~= a + b.drop_last());
        assert((a + b).last() == b.last());
        lemma_encode_all_append(a, b.drop_last());
        assert(encode_all(a) + encode_all(b.drop_last()) + encode(b.last())
            =~= encode_all(a) + (encode_all(b.drop_last()) + encode(b.last())));
    }
}

/// Where a real immediate stands in encoded code: the position of its first
/// byte and the literal whose bits go there.
#[derive(PartialEq, Eq, Debug, Clone, Copy)]
pub struct FloatPatch {
    pub pos: usize,
    pub value: Decimal,
}

/// The patch for a source whose bytes start at `pos`: one for a real immediate, none otherwise.
pub open spec fn source_patches(s: Source, pos: int) -> Seq<FloatPatch> {
    match s {
        Source::Float(d) => seq![FloatPatch { pos: pos as usize, value: d }],
        _ => Seq::empty(),
    }
}

/// The patches of one instruction whose bytes start at `pos`.
pub open spec fn instruction_patches(i: Instruction, pos: int) -> Seq<FloatPatch> {
    match layout(i) {
        Layout::Three { src1, src2, .. } =>
            source_patches(src1, pos + 2) + source_patches(src2, pos + 2 + source_size(src1)),
        Layout::Two { src, .. } => source_patches(src, pos + 2),
        Layout::CondJump { src1, src2, .. } =>
            source_patches(src1, pos + 3) + source_patches(src2, pos + 3 + source_size(src1)),
        Layout::Ret { src } => source_patches(src, pos + 1),
        Layout::Error { src, .. } => match src {
            Some(s) => source_patches(s, pos + 2),
            None => Seq::empty(),
        },
        _ => Seq::empty(),
    }
}

/// The patches of a sequence of instructions, in order.
pub open spec fn patches_all(s: Seq<Instruction>) -> Seq<FloatPatch>
    decreases s.len(),
{
    if s.len() == 0 {
        Seq::empty()
    } else {
        patches_all(s.drop_last()) + instruction_patches(s.last(), encode_all(s.drop_last()).len() as int)
    }
}

pub proof fn lemma_source_bytes_len(s: Source)
    ensures
        source_bytes(s).len() == source_size(s),
{
}

/// An instruction takes as many bytes as `instruction_size` says.
pub proof fn lemma_encode_len(i: Instruction)
    ensures
        encode(i).len() == instruction_size(i),
{
    match layout(i) {
        Layout::Three { src1, src2, .. } => {
            lemma_source_bytes_len(src1);
            lemma_source_bytes_len(src2);
        },
        Layout::Two { src, .. } => lemma_source_bytes_len(src),
        Layout::CondJump { src1, src2, .. } => {
            lemma_source_bytes_len(src1);
            lemma_source_bytes_len(src2);
        },
        Layout::Ret { src } => lemma_source_bytes_len(src),
        Layout::Error { src, .. } => {
            if let Some(s) = src {
                lemma_source_bytes_len(s);
            }
        },
        _ => {},
    }
}

/// Encoded code is exactly as long as `code_size` (and so `get_num_bytes`)
/// computes: the jump offsets computed from sizes measure the encoded bytes.
pub proof fn lemma_encode_all_len(s: Seq<Instruction>)
    ensures
        encode_all(s).len() == code_size(s),
    decreases s.len(),
{
    if s.len() > 0 {
        lemma_encode_all_len(s.drop_last());
        lemma_encode_len(s.last());
    }
}

fn push_le_u64(bytes: &mut Vec<u8>, v: u64)
    ensures
        final(bytes)@ == old(bytes)@ + le_u64(v),
{
    bytes.push(v as u8);
    bytes.push((v >> 8u64) as u8);
    bytes.push((v >> 16u64) as u8);
    bytes.push((v >> 24u64) as u8);
    bytes.push((v >> 32u64) as u8);
    bytes.push((v >> 40u64) as u8);
    bytes.push((v >> 48u64) as u8);
    bytes.push((v >> 56u64) as u8);
    assert(final(bytes)@ =~= old(bytes)@ + le_u64(v));
}

fn is_immediate_exec(s: &Source) -> (r: bool)
    ensures
        r == is_immediate(*s),
{
    match s {
        Source::RegInter(_) | Source::RegVar(_) => false,
        _ => true,
    }
}

fn imm_bit_exec(s: &Source) -> (r: u8)
    ensures
        r == imm_bit(*s),
{
    if is_immediate_exec(s) { 1 } else { 0 }
}

/// Appends the bytes of a source, noting where a real immediate goes.
fn push_source(bytes: &mut Vec<u8>, patches: &mut Vec<FloatPatch>, s: Source)
    ensures
        final(bytes)@ == old(bytes)@ + source_bytes(s),
        final(patches)@ == old(patches)@ + source_patches(s, old(bytes)@.len() as int),
{
    match s {
        Source::RegInter(r) | Source::RegVar(r) => {
            bytes.push(r as u8);
            assert(final(bytes)@ =~= old(bytes)@ + source_bytes(s));
            assert(final(patches)@ =~= old(patches)@ + source_patches(s, old(bytes)@.len() as int));
        },
        Source::Bool(b) => {
            push_le_u64(bytes, if b { 1 } else { 0 });
            assert(final(patches)@ =~= old(patches)@ + source_patches(s, old(bytes)@.len() as int));
        },
        Source::Int(i) => {
            push_le_u64(bytes, i as u64);
            assert(final(patches)@ =~= old(patches)@ + source_patches(s, old(bytes)@.len() as int));
        },
        Source::Float(d) => {
            let pos = bytes.len();
            push_le_u64(bytes, 0);
            patches.push(FloatPatch { pos, value: d });
            assert(final(patches)@ =~= old(patches)@ + source_patches(s, old(bytes)@.len() as int));
        },
    }
}

fn layout_of(i: &Instruction) -> (l: Layout)
    ensures
        l == layout(*i),
{
    match *i {
        Instruction::IADD { dest, src1, src2 } => Layout::Three { code: 0, dest, src1, src2 },
        Instruction::ISUB { dest, src1, src2 } => Layout::Three { code: 1, dest, src1, src2 },
        Instruction::IMUL { dest, src1, src2 } => Layout::Three { code: 2, dest, src1, src2 },
        Instruction::IDIV { dest, src1, src2 } => Layout::Three { code: 3, dest, src1, src2 },
        Instruction::IPOW { dest, src1, src2 } => Layout::Three { code: 4, dest, src1, src2 },
        Instruction::IABS { dest, src } => Layout::Two { code: 5, dest, src },
        Instruction::IMOD { dest, src1, src2 } => Layout::Three { code: 6, dest, src1, src2 },
        Instruction::FADD { dest, src1, src2 } => Layout::Three { code: 8, dest, src1, src2 },
        Instruction::FSUB { dest, src1, src2 } => Layout::Three { code: 9, dest, src1, src2 },
        Instruction::FMUL { dest, src1, src2 } => Layout::Three { code: 10, dest, src1, src2 },
        Instruction::FDIV { dest, src1, src2 } => Layout::Three { code: 11, dest, src1, src2 },
        Instruction::FPOW { dest, src1, src2 } => Layout::Three { code: 12, dest, src1, src2 },
        Instruction::FABS { dest, src } => Layout::Two { code: 13, dest, src },
        Instruction::AND { dest, src1, src2 } => Layout::Three { code: 16, dest, src1, src2 },
        Instruction::OR { dest, src1, src2 } => Layout::Three { code: 17, dest, src1, src2 },
        Instruction::NOT { dest, src } => Layout::Two { code: 18, dest, src },
        Instruction::XOR { dest, src1, src2 } => Layout::Three { code: 19, dest, src1, src2 },
        Instruction::I2F { dest, src } => Layout::Two { code: 22, dest, src },
        Instruction::JMP { offset } => Layout::Jump { offset },
        Instruction::IJEQ { offset, src1, src2 } => Layout::CondJump { code: 34, offset, src1, src2 },
        Instruction::IJNE { offset, src1, src2 } => Layout::CondJump { code: 35, offset, src1, src2 },
        Instruction::IJLT { offset, src1, src2 } => Layout::CondJump { code: 36, offset, src1, src2 },
        Instruction::IJGT { offset, src1, src2 } => Layout::CondJump { code: 38, offset, src1, src2 },
        Instruction::IJLE { offset, src1, src2 } => Layout::CondJump { code: 37, offset, src1, src2 },
        Instruction::IJGE { offset, src1, src2 } => Layout::CondJump { code: 39, offset, src1, src2 },
        Instruction::FJEQ { offset, src1, src2 } => Layout::CondJump { code: 42, offset, src1, src2 },
        Instruction::FJNE { offset, src1, src2 } => Layout::CondJump { code: 43, offset, src1, src2 },
        Instruction::FJLT { offset, src1, src2 } => Layout::CondJump { code: 44, offset, src1, src2 },
        Instruction::FJGT { offset, src1, src2 } => Layout::CondJump { code: 46, offset, src1, src2 },
        Instruction::FJLE { offset, src1, src2 } => Layout::CondJump { code: 45, offset, src1, src2 },
        Instruction::FJGE { offset, src1, src2 } => Layout::CondJump { code: 47, offset, src1, src2 },
        Instruction::IEQ { dest, src1, src2 } => Layout::Three { code: 50, dest, src1, src2 },
        Instruction::INE { dest, src1, src2 } => Layout::Three { code: 51, dest, src1, src2 },
        Instruction::ILT { dest, src1, src2 } => Layout::Three { code: 52, dest, src1, src2 },
        Instruction::IGT { dest, src1, src2 } => Layout::Three { code: 54, dest, src1, src2 },
        Instruction::ILE { dest, src1, src2 } => Layout::Three { code: 53, dest, src1, src2 },
        Instruction::IGE { dest, src1, src2 } => Layout::Three { code: 55, dest, src1, src2 },
        Instruction::FEQ { dest, src1, src2 } => Layout::Three { code: 58, dest, src1, src2 },
        Instruction::FNE { dest, src1, src2 } => Layout::Three { code: 59, dest, src1, src2 },
        Instruction::FLT { dest, src1, src2 } => Layout::Three { code: 60, dest, src1, src2 },
        Instruction::FGT { dest, src1, src2 } => Layout::Three { code: 62, dest, src1, src2 },
        Instruction::FLE { dest, src1, src2 } => Layout::Three { code: 61, dest, src1, src2 },
        Instruction::FGE { dest, src1, src2 } => Layout::Three { code: 63, dest, src1, src2 },
        Instruction::MOV { dest, src } => Layout::Two { code: 48, dest, src },
        Instruction::RET { src } => Layout::Ret { src },
        Instruction::ERR { code, src } => Layout::Error { code, src },
        Instruction::RND { dest } => Layout::Rnd { dest },
    }
}

/// Appends the bytes of one instruction, noting where its real immediates go.
fn push_instruction(bytes: &mut Vec<u8>, patches: &mut Vec<FloatPatch>, i: &Instruction)
    ensures
        final(bytes)@ == old(bytes)@ + encode(*i),
        final(patches)@ == old(patches)@ + instruction_patches(*i, old(bytes)@.len() as int),
{
    let ghost b0 = bytes@;
    let ghost p0 = patches@;
    match layout_of(i) {
        Layout::Three { code, dest, src1, src2 } => {
            let op: u8 = 4 * code + 2 * imm_bit_exec(&src1) + imm_bit_exec(&src2);
            bytes.push(op);
            bytes.push(dest as u8);
            push_source(bytes, patches, src1);
            push_source(bytes, patches, src2);
            proof {
                lemma_source_bytes_len(src1);
                assert(bytes@ =~= b0 + encode(*i));
                assert(patches@ =~= p0 + instruction_patches(*i, b0.len() as int));
            }
        },
        Layout::Two { code, dest, src } => {
            let op: u8 = 4 * code + 2 * imm_bit_exec(&src);
            bytes.push(op);
            bytes.push(dest as u8);
            push_source(bytes, patches, src);
            proof {
                assert(bytes@ =~= b0 + encode(*i));
                assert(patches@ =~= p0 + instruction_patches(*i, b0.len() as int));
            }
        },
        Layout::CondJump { code, offset, src1, src2 } => {
            let op: u8 = 4 * code + 2 * imm_bit_exec(&src1) + imm_bit_exec(&src2);
            bytes.push(op);
            bytes.push(offset as u8);
            bytes.push(((offset as u16) >> 8u16) as u8);
            push_source(bytes, patches, src1);
            push_source(bytes, patches, src2);
            proof {
                lemma_source_bytes_len(src1);
                assert(bytes@ =~= b0 + encode(*i));
                assert(patches@ =~= p0 + instruction_patches(*i, b0.len() as int));
            }
        },
        Layout::Jump { offset } => {
            bytes.push(128u8);
            bytes.push(offset as u8);
            bytes.push(((offset as u16) >> 8u16) as u8);
            proof {
                assert(bytes@ =~= b0 + encode(*i));
                assert(patches@ =~= p0 + instruction_patches(*i, b0.len() as int));
            }
        },
        Layout::Ret { src } => {
            let op: u8 = 160 + 2 * imm_bit_exec(&src);
            bytes.push(op);
            push_source(bytes, patches, src);
            proof {
                assert(bytes@ =~= b0 + encode(*i));
                assert(patches@ =~= p0 + instruction_patches(*i, b0.len() as int));
            }
        },
        Layout::Error { code, src } => {
            match src {
                Some(s) => {
                    let op: u8 = 166 + imm_bit_exec(&s);
                    bytes.push(op);
                    bytes.push(code);
                    push_source(bytes, patches, s);
                },
                None => {
                    bytes.push(164u8);
                    bytes.push(code);
                },
            }
            proof {
                assert(bytes@ =~= b0 + encode(*i));
                assert(patches@ =~= p0 + instruction_patches(*i, b0.len() as int));
            }
        },
        Layout::Rnd { dest } => {
            bytes.push(224u8);
            bytes.push(dest as u8);
            proof {
                assert(bytes@ =~= b0 + encode(*i));
                assert(patches@ =~= p0 + instruction_patches(*i, b0.len() as int));
            }
        },
    }
}

/// Encodes instructions as bytes, one after the other (see `encode`), and
/// lists where the bits of real immediates are to be written.
pub fn lower_ir(ir_bytecode: Vec<Instruction>) -> (r: (Vec<u8>, Vec<FloatPatch>))
    ensures
        r.0@ == encode_all(ir_bytecode@),
        r.1@ == patches_all(ir_bytecode@),
        r.0@.len() == code_size(ir_bytecode@),
{
    let mut bytes: Vec<u8> = Vec::new();
    let mut float_patches: Vec<FloatPatch> = Vec::new();
    let mut k: usize = 0;
    while k < ir_bytecode.len()
        invariant
            k <= ir_bytecode@.len(),
            bytes@ == encode_all(ir_bytecode@.take(k as int)),
            float_patches@ == patches_all(ir_bytecode@.take(k as int)),
        decreases ir_bytecode@.len() - k,
    {
        proof {
            let t = ir_bytecode@.take(k + 1);
            assert(t.drop_last() =~= ir_bytecode@.take(k as int));
        }
        let inst = ir_bytecode[k];
        push_instruction(&mut bytes, &mut float_patches, &inst);
        k = k + 1;
    }
    proof {
        assert(ir_bytecode@.take(k as int) =~= ir_bytecode@);
        lemma_encode_all_len(ir_bytecode@);
    }
    (bytes, float_patches)
}

} // verus!
