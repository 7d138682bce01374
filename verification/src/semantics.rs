//! What the machine's instructions compute and what the source's operator
//! tokens spell, and the laws that tie the compiler's choices to them: the
//! instruction chosen for an operator computes that operator, an operator
//! token stands for the operator written with it, the opcode byte flags
//! exactly the operands written as immediates, and a literal is taken for a
//! number only when it has that value.

use vstd::prelude::*;
use vstd::arithmetic::power::pow;
use crate::alg_trans::{SExpr, Value, apply, is_num, power, trunc_div};
use crate::ast::{BinaryOp, Expr, Literal};
use crate::expr_compiler::binary_instruction;
use crate::ir::{Instruction, Layout, Source, encode, imm_bit, jump_offset, layout, le_i16, le_u64, source_bytes};
use crate::lexer::symbol_spec;
use crate::parser::expr::{binary_at, chain_at, infix_spec, lone_binary, lone_chain};
use crate::token::{TokenKind, pow10};

verus! {

// ---------------------------------------------------------------------------
// What instructions compute

/// The destination and the two sources of an instruction that computes a
/// value from two operands.
pub open spec fn operands(i: Instruction) -> Option<(usize, Source, Source)> {
    match i {
        Instruction::IADD { dest, src1, src2 } | Instruction::ISUB { dest, src1, src2 }
        | Instruction::IMUL { dest, src1, src2 } | Instruction::IDIV { dest, src1, src2 }
        | Instruction::IPOW { dest, src1, src2 } | Instruction::IMOD { dest, src1, src2 }
        | Instruction::FADD { dest, src1, src2 } | Instruction::FSUB { dest, src1, src2 }
        | Instruction::FMUL { dest, src1, src2 } | Instruction::FDIV { dest, src1, src2 }
        | Instruction::FPOW { dest, src1, src2 } | Instruction::AND { dest, src1, src2 }
        | Instruction::OR { dest, src1, src2 } | Instruction::XOR { dest, src1, src2 }
        | Instruction::IEQ { dest, src1, src2 } | Instruction::INE { dest, src1, src2 }
        | Instruction::ILT { dest, src1, src2 } | Instruction::IGT { dest, src1, src2 }
        | Instruction::ILE { dest, src1, src2 } | Instruction::IGE { dest, src1, src2 }
        | Instruction::FEQ { dest, src1, src2 } | Instruction::FNE { dest, src1, src2 }
        | Instruction::FLT { dest, src1, src2 } | Instruction::FGT { dest, src1, src2 }
        | Instruction::FLE { dest, src1, src2 } | Instruction::FGE { dest, src1, src2 } => Some((dest, src1, src2)),
        _ => None,
    }
}

/// The instruction works on reals (its operands are read as reals).
pub open spec fn works_on_reals(i: Instruction) -> bool {
    match i {
        Instruction::FADD { .. } | Instruction::FSUB { .. } | Instruction::FMUL { .. }
        | Instruction::FDIV { .. } | Instruction::FPOW { .. } | Instruction::FEQ { .. }
        | Instruction::FNE { .. } | Instruction::FLT { .. } | Instruction::FGT { .. }
        | Instruction::FLE { .. } | Instruction::FGE { .. } => true,
        _ => false,
    }
}

/// The value a two-operand instruction writes to its destination when its
/// sources hold `a` and `b` (numbers are modelled by their integral values;
/// a comparison writes a truth value); `None` where the instruction is not
/// defined on them.
pub open spec fn computes(i: Instruction, a: Value, b: Value) -> Option<Value> {
    match (a, b) {
        (Value::Int(x), Value::Int(y)) => match i {
            Instruction::IADD { .. } | Instruction::FADD { .. } => Some(Value::Int(x + y)),
            Instruction::ISUB { .. } | Instruction::FSUB { .. } => Some(Value::Int(x - y)),
            Instruction::IMUL { .. } | Instruction::FMUL { .. } => Some(Value::Int(x * y)),
            Instruction::IDIV { .. } | Instruction::FDIV { .. } =>
                if y == 0 { None } else { Some(Value::Int(trunc_div(x, y))) },
            Instruction::IPOW { .. } | Instruction::FPOW { .. } =>
                if y < 0 { None } else { Some(Value::Int(power(x, y as nat))) },
            Instruction::IEQ { .. } | Instruction::FEQ { .. } => Some(Value::Bool(x == y)),
            Instruction::INE { .. } | Instruction::FNE { .. } => Some(Value::Bool(x != y)),
            Instruction::ILT { .. } | Instruction::FLT { .. } => Some(Value::Bool(x < y)),
            Instruction::IGT { .. } | Instruction::FGT { .. } => Some(Value::Bool(x > y)),
            Instruction::ILE { .. } | Instruction::FLE { .. } => Some(Value::Bool(x <= y)),
            Instruction::IGE { .. } | Instruction::FGE { .. } => Some(Value::Bool(x >= y)),
            _ => None,
        },
        (Value::Bool(x), Value::Bool(y)) => match i {
            Instruction::AND { .. } => Some(Value::Bool(x && y)),
            Instruction::OR { .. } => Some(Value::Bool(x || y)),
            Instruction::XOR { .. } => Some(Value::Bool(x != y)),
            _ => None,
        },
        _ => None,
    }
}

/// The instruction compiled for a binary operator computes that operator:
/// from the sources it is given into the destination it is given, on the
/// values the operator takes, with the operator's own result; and it works
/// on reals exactly where the operation is on reals. (A power in a `Mod`
/// type is compiled as a division, and is left out.)
pub proof fn lemma_binary_instruction_computes(
    op: BinaryOp,
    float_op: bool,
    mod_pow: bool,
    dest: usize,
    src1: Source,
    src2: Source,
    a: Value,
    b: Value,
)
    requires
        !(mod_pow && op is Pow),
    ensures
        operands(binary_instruction(op, float_op, mod_pow, dest, src1, src2)) == Some((dest, src1, src2)),
        computes(binary_instruction(op, float_op, mod_pow, dest, src1, src2), a, b) == apply(op, a, b),
        works_on_reals(binary_instruction(op, float_op, mod_pow, dest, src1, src2))
            == (float_op && !(op is Or || op is And)),
{
}

// ---------------------------------------------------------------------------
// What operator tokens spell

/// How the operator `op` is written in the source.
pub open spec fn op_text(op: BinaryOp) -> Seq<char> {
    match op {
        BinaryOp::Lt => seq!['<'],
        BinaryOp::Gt => seq!['>'],
        BinaryOp::Le => seq!['<', '='],
        BinaryOp::Ge => seq!['>', '='],
        BinaryOp::Add => seq!['+'],
        BinaryOp::Sub => seq!['-'],
        BinaryOp::Mul => seq!['*'],
        BinaryOp::Div => seq!['/'],
        BinaryOp::Pow => seq!['^'],
        BinaryOp::Or => seq!['|'],
        BinaryOp::And => seq!['&'],
    }
}

/// The lexer reads the text `t` as exactly one token, of kind `k`.
pub open spec fn lexes_as(t: Seq<char>, k: TokenKind) -> bool {
    &&& 1 <= t.len() <= 2
    &&& symbol_spec(t[0], if t.len() == 2 { Some(t[1]) } else { None }) == Some((k, t.len() as usize))
}

/// An operator token stands for the operator written with it: the text of
/// the operator the parser takes a token for is read back as that token.
pub proof fn lemma_operator_token_is_its_operator(k: TokenKind)
    ensures
        infix_spec(k) matches Some((op, _, _)) ==> lexes_as(op_text(op), k),
{
}

/// A parsed operation `a op b` has the operator that its middle token spells.
pub proof fn lemma_parsed_operator(toks: Seq<crate::token::Token>, p: int, min_bp: u8)
    requires
        lone_binary(toks, p, min_bp),
    ensures
        binary_at(toks, p) matches Expr::Binary(b) && lexes_as(op_text(b.op), toks[p + 1].kind),
{
    lemma_operator_token_is_its_operator(toks[p + 1].kind);
}

/// How tightly an operator groups, by the usual conventions: comparisons
/// loosest, then `+`, `-` and `|`, then `*`, `/` and `&`, then `^`.
pub open spec fn op_rank(op: BinaryOp) -> int {
    match op {
        BinaryOp::Lt | BinaryOp::Gt | BinaryOp::Le | BinaryOp::Ge => 1,
        BinaryOp::Add | BinaryOp::Sub | BinaryOp::Or => 2,
        BinaryOp::Mul | BinaryOp::Div | BinaryOp::And => 3,
        BinaryOp::Pow => 4,
    }
}

/// The operation's right operand is itself an operation.
pub open spec fn groups_right(e: Expr) -> bool {
    e matches Expr::Binary(b) && *b.right is Binary
}

/// In `a op1 b op2 c` the parser groups `b op2 c` first exactly when `op2`
/// ranks above `op1`, or both are powers; operators of one rank otherwise
/// group from the left.
pub proof fn lemma_chain_grouping(toks: Seq<crate::token::Token>, p: int, min_bp: u8)
    requires
        lone_chain(toks, p, min_bp),
    ensures
        infix_spec(toks[p + 1].kind) matches Some((o1, _, _)) && infix_spec(toks[p + 3].kind) matches Some((o2, _, _))
            && (groups_right(chain_at(toks, p)) <==> (op_rank(o2) > op_rank(o1) || (o1 is Pow && o2 is Pow))),
{
}

// ---------------------------------------------------------------------------
// Which operands the opcode byte flags

/// The source is written into the code as an immediate value, not as a
/// register number.
pub open spec fn written_inline(s: Source) -> bool {
    s is Bool || s is Int || s is Float
}

/// The two sources of a conditional jump.
pub open spec fn jump_sources(i: Instruction) -> Option<(Source, Source)> {
    match i {
        Instruction::IJEQ { src1, src2, .. } | Instruction::IJNE { src1, src2, .. }
        | Instruction::IJLT { src1, src2, .. } | Instruction::IJGT { src1, src2, .. }
        | Instruction::IJLE { src1, src2, .. } | Instruction::IJGE { src1, src2, .. }
        | Instruction::FJEQ { src1, src2, .. } | Instruction::FJNE { src1, src2, .. }
        | Instruction::FJLT { src1, src2, .. } | Instruction::FJGT { src1, src2, .. }
        | Instruction::FJLE { src1, src2, .. } | Instruction::FJGE { src1, src2, .. } => Some((src1, src2)),
        _ => None,
    }
}

/// The single source of an instruction that reads one (`RET` included).
pub open spec fn single_source(i: Instruction) -> Option<Source> {
    match i {
        Instruction::IABS { src, .. } | Instruction::FABS { src, .. } | Instruction::NOT { src, .. }
        | Instruction::I2F { src, .. } | Instruction::MOV { src, .. } | Instruction::RET { src } => Some(src),
        _ => None,
    }
}

/// The opcode byte `op` flags the first source as inline by its bit 1 and
/// the second by its bit 0.
pub open spec fn flags_two(op: u8, s1: Source, s2: Source) -> bool {
    &&& ((op / 2) % 2 == 1) == written_inline(s1)
    &&& (op % 2 == 1) == written_inline(s2)
}

/// The first byte of an encoded instruction says which of its sources are
/// written inline: bit 1 for the first source (or the only one), bit 0 for
/// the second; this holds alike for operations, conditional jumps and
/// one-source instructions, so a reader of the bytes knows how long each
/// operand is.
pub proof fn lemma_opcode_flags(i: Instruction)
    ensures
        encode(i).len() > 0,
        operands(i) matches Some((_, s1, s2)) ==> flags_two(encode(i)[0], s1, s2),
        jump_sources(i) matches Some((s1, s2)) ==> flags_two(encode(i)[0], s1, s2),
        single_source(i) matches Some(s) ==> flags_two(encode(i)[0], s, Source::RegInter(0)),
{
}

/// The instruction with its operands set aside: which instruction it is.
pub open spec fn kind_of(i: Instruction) -> Instruction {
    match i {
        Instruction::IADD { .. } => Instruction::IADD { dest: 0, src1: Source::RegInter(0), src2: Source::RegInter(0) },
        Instruction::ISUB { .. } => Instruction::ISUB { dest: 0, src1: Source::RegInter(0), src2: Source::RegInter(0) },
        Instruction::IMUL { .. } => Instruction::IMUL { dest: 0, src1: Source::RegInter(0), src2: Source::RegInter(0) },
        Instruction::IDIV { .. } => Instruction::IDIV { dest: 0, src1: Source::RegInter(0), src2: Source::RegInter(0) },
        Instruction::IPOW { .. } => Instruction::IPOW { dest: 0, src1: Source::RegInter(0), src2: Source::RegInter(0) },
        Instruction::IABS { .. } => Instruction::IABS { dest: 0, src: Source::RegInter(0) },
        Instruction::IMOD { .. } => Instruction::IMOD { dest: 0, src1: Source::RegInter(0), src2: Source::RegInter(0) },
        Instruction::FADD { .. } => Instruction::FADD { dest: 0, src1: Source::RegInter(0), src2: Source::RegInter(0) },
        Instruction::FSUB { .. } => Instruction::FSUB { dest: 0, src1: Source::RegInter(0), src2: Source::RegInter(0) },
        Instruction::FMUL { .. } => Instruction::FMUL { dest: 0, src1: Source::RegInter(0), src2: Source::RegInter(0) },
        Instruction::FDIV { .. } => Instruction::FDIV { dest: 0, src1: Source::RegInter(0), src2: Source::RegInter(0) },
        Instruction::FPOW { .. } => Instruction::FPOW { dest: 0, src1: Source::RegInter(0), src2: Source::RegInter(0) },
        Instruction::FABS { .. } => Instruction::FABS { dest: 0, src: Source::RegInter(0) },
        Instruction::AND { .. } => Instruction::AND { dest: 0, src1: Source::RegInter(0), src2: Source::RegInter(0) },
        Instruction::OR { .. } => Instruction::OR { dest: 0, src1: Source::RegInter(0), src2: Source::RegInter(0) },
        Instruction::NOT { .. } => Instruction::NOT { dest: 0, src: Source::RegInter(0) },
        Instruction::XOR { .. } => Instruction::XOR { dest: 0, src1: Source::RegInter(0), src2: Source::RegInter(0) },
        Instruction::I2F { .. } => Instruction::I2F { dest: 0, src: Source::RegInter(0) },
        Instruction::IJEQ { .. } => Instruction::IJEQ { offset: 0, src1: Source::RegInter(0), src2: Source::RegInter(0) },
        Instruction::IJNE { .. } => Instruction::IJNE { offset: 0, src1: Source::RegInter(0), src2: Source::RegInter(0) },
        Instruction::IJLT { .. } => Instruction::IJLT { offset: 0, src1: Source::RegInter(0), src2: Source::RegInter(0) },
        Instruction::IJGT { .. } => Instruction::IJGT { offset: 0, src1: Source::RegInter(0), src2: Source::RegInter(0) },
        Instruction::IJLE { .. } => Instruction::IJLE { offset: 0, src1: Source::RegInter(0), src2: Source::RegInter(0) },
        Instruction::IJGE { .. } => Instruction::IJGE { offset: 0, src1: Source::RegInter(0), src2: Source::RegInter(0) },
        Instruction::FJEQ { .. } => Instruction::FJEQ { offset: 0, src1: Source::RegInter(0), src2: Source::RegInter(0) },
        Instruction::FJNE { .. } => Instruction::FJNE { offset: 0, src1: Source::RegInter(0), src2: Source::RegInter(0) },
        Instruction::FJLT { .. } => Instruction::FJLT { offset: 0, src1: Source::RegInter(0), src2: Source::RegInter(0) },
        Instruction::FJGT { .. } => Instruction::FJGT { offset: 0, src1: Source::RegInter(0), src2: Source::RegInter(0) },
        Instruction::FJLE { .. } => Instruction::FJLE { offset: 0, src1: Source::RegInter(0), src2: Source::RegInter(0) },
        Instruction::FJGE { .. } => Instruction::FJGE { offset: 0, src1: Source::RegInter(0), src2: Source::RegInter(0) },
        Instruction::IEQ { .. } => Instruction::IEQ { dest: 0, src1: Source::RegInter(0), src2: Source::RegInter(0) },
        Instruction::INE { .. } => Instruction::INE { dest: 0, src1: Source::RegInter(0), src2: Source::RegInter(0) },
        Instruction::ILT { .. } => Instruction::ILT { dest: 0, src1: Source::RegInter(0), src2: Source::RegInter(0) },
        Instruction::IGT { .. } => Instruction::IGT { dest: 0, src1: Source::RegInter(0), src2: Source::RegInter(0) },
        Instruction::ILE { .. } => Instruction::ILE { dest: 0, src1: Source::RegInter(0), src2: Source::RegInter(0) },
        Instruction::IGE { .. } => Instruction::IGE { dest: 0, src1: Source::RegInter(0), src2: Source::RegInter(0) },
        Instruction::FEQ { .. } => Instruction::FEQ { dest: 0, src1: Source::RegInter(0), src2: Source::RegInter(0) },
        Instruction::FNE { .. } => Instruction::FNE { dest: 0, src1: Source::RegInter(0), src2: Source::RegInter(0) },
        Instruction::FLT { .. } => Instruction::FLT { dest: 0, src1: Source::RegInter(0), src2: Source::RegInter(0) },
        Instruction::FGT { .. } => Instruction::FGT { dest: 0, src1: Source::RegInter(0), src2: Source::RegInter(0) },
        Instruction::FLE { .. } => Instruction::FLE { dest: 0, src1: Source::RegInter(0), src2: Source::RegInter(0) },
        Instruction::FGE { .. } => Instruction::FGE { dest: 0, src1: Source::RegInter(0), src2: Source::RegInter(0) },
        Instruction::MOV { .. } => Instruction::MOV { dest: 0, src: Source::RegInter(0) },
        Instruction::JMP { .. } => Instruction::JMP { offset: 0 },
        Instruction::RET { .. } => Instruction::RET { src: Source::RegInter(0) },
        Instruction::ERR { .. } => Instruction::ERR { code: 0, src: None },
        Instruction::RND { .. } => Instruction::RND { dest: 0 },
    }
}

/// The instruction a reader of the code takes an opcode byte for, from the
/// byte's upper six bits `c` (the lower two flag inline operands).
pub open spec fn decode_kind(c: int) -> Option<Instruction> {
    if c == 0 {
        Some(Instruction::IADD { dest: 0, src1: Source::RegInter(0), src2: Source::RegInter(0) })
    } else if c == 1 {
        Some(Instruction::ISUB { dest: 0, src1: Source::RegInter(0), src2: Source::RegInter(0) })
    } else if c == 2 {
        Some(Instruction::IMUL { dest: 0, src1: Source::RegInter(0), src2: Source::RegInter(0) })
    } else if c == 3 {
        Some(Instruction::IDIV { dest: 0, src1: Source::RegInter(0), src2: Source::RegInter(0) })
    } else if c == 4 {
        Some(Instruction::IPOW { dest: 0, src1: Source::RegInter(0), src2: Source::RegInter(0) })
    } else if c == 5 {
        Some(Instruction::IABS { dest: 0, src: Source::RegInter(0) })
    } else if c == 6 {
        Some(Instruction::IMOD { dest: 0, src1: Source::RegInter(0), src2: Source::RegInter(0) })
    } else if c == 8 {
        Some(Instruction::FADD { dest: 0, src1: Source::RegInter(0), src2: Source::RegInter(0) })
    } else if c == 9 {
        Some(Instruction::FSUB { dest: 0, src1: Source::RegInter(0), src2: Source::RegInter(0) })
    } else if c == 10 {
        Some(Instruction::FMUL { dest: 0, src1: Source::RegInter(0), src2: Source::RegInter(0) })
    } else if c == 11 {
        Some(Instruction::FDIV { dest: 0, src1: Source::RegInter(0), src2: Source::RegInter(0) })
    } else if c == 12 {
        Some(Instruction::FPOW { dest: 0, src1: Source::RegInter(0), src2: Source::RegInter(0) })
    } else if c == 13 {
        Some(Instruction::FABS { dest: 0, src: Source::RegInter(0) })
    } else if c == 16 {
        Some(Instruction::AND { dest: 0, src1: Source::RegInter(0), src2: Source::RegInter(0) })
    } else if c == 17 {
        Some(Instruction::OR { dest: 0, src1: Source::RegInter(0), src2: Source::RegInter(0) })
    } else if c == 18 {
        Some(Instruction::NOT { dest: 0, src: Source::RegInter(0) })
    } else if c == 19 {
        Some(Instruction::XOR { dest: 0, src1: Source::RegInter(0), src2: Source::RegInter(0) })
    } else if c == 22 {
        Some(Instruction::I2F { dest: 0, src: Source::RegInter(0) })
    } else if c == 32 {
        Some(Instruction::JMP { offset: 0 })
    } else if c == 34 {
        Some(Instruction::IJEQ { offset: 0, src1: Source::RegInter(0), src2: Source::RegInter(0) })
    } else if c == 35 {
        Some(Instruction::IJNE { offset: 0, src1: Source::RegInter(0), src2: Source::RegInter(0) })
    } else if c == 36 {
        Some(Instruction::IJLT { offset: 0, src1: Source::RegInter(0), src2: Source::RegInter(0) })
    } else if c == 37 {
        Some(Instruction::IJLE { offset: 0, src1: Source::RegInter(0), src2: Source::RegInter(0) })
    } else if c == 38 {
        Some(Instruction::IJGT { offset: 0, src1: Source::RegInter(0), src2: Source::RegInter(0) })
    } else if c == 39 {
        Some(Instruction::IJGE { offset: 0, src1: Source::RegInter(0), src2: Source::RegInter(0) })
    } else if c == 40 {
        Some(Instruction::RET { src: Source::RegInter(0) })
    } else if c == 41 {
        Some(Instruction::ERR { code: 0, src: None })
    } else if c == 42 {
        Some(Instruction::FJEQ { offset: 0, src1: Source::RegInter(0), src2: Source::RegInter(0) })
    } else if c == 43 {
        Some(Instruction::FJNE { offset: 0, src1: Source::RegInter(0), src2: Source::RegInter(0) })
    } else if c == 44 {
        Some(Instruction::FJLT { offset: 0, src1: Source::RegInter(0), src2: Source::RegInter(0) })
    } else if c == 45 {
        Some(Instruction::FJLE { offset: 0, src1: Source::RegInter(0), src2: Source::RegInter(0) })
    } else if c == 46 {
        Some(Instruction::FJGT { offset: 0, src1: Source::RegInter(0), src2: Source::RegInter(0) })
    } else if c == 47 {
        Some(Instruction::FJGE { offset: 0, src1: Source::RegInter(0), src2: Source::RegInter(0) })
    } else if c == 48 {
        Some(Instruction::MOV { dest: 0, src: Source::RegInter(0) })
    } else if c == 50 {
        Some(Instruction::IEQ { dest: 0, src1: Source::RegInter(0), src2: Source::RegInter(0) })
    } else if c == 51 {
        Some(Instruction::INE { dest: 0, src1: Source::RegInter(0), src2: Source::RegInter(0) })
    } else if c == 52 {
        Some(Instruction::ILT { dest: 0, src1: Source::RegInter(0), src2: Source::RegInter(0) })
    } else if c == 53 {
        Some(Instruction::ILE { dest: 0, src1: Source::RegInter(0), src2: Source::RegInter(0) })
    } else if c == 54 {
        Some(Instruction::IGT { dest: 0, src1: Source::RegInter(0), src2: Source::RegInter(0) })
    } else if c == 55 {
        Some(Instruction::IGE { dest: 0, src1: Source::RegInter(0), src2: Source::RegInter(0) })
    } else if c == 56 {
        Some(Instruction::RND { dest: 0 })
    } else if c == 58 {
        Some(Instruction::FEQ { dest: 0, src1: Source::RegInter(0), src2: Source::RegInter(0) })
    } else if c == 59 {
        Some(Instruction::FNE { dest: 0, src1: Source::RegInter(0), src2: Source::RegInter(0) })
    } else if c == 60 {
        Some(Instruction::FLT { dest: 0, src1: Source::RegInter(0), src2: Source::RegInter(0) })
    } else if c == 61 {
        Some(Instruction::FLE { dest: 0, src1: Source::RegInter(0), src2: Source::RegInter(0) })
    } else if c == 62 {
        Some(Instruction::FGT { dest: 0, src1: Source::RegInter(0), src2: Source::RegInter(0) })
    } else if c == 63 {
        Some(Instruction::FGE { dest: 0, src1: Source::RegInter(0), src2: Source::RegInter(0) })
    } else {
        None
    }
}

/// The first byte of an encoded instruction tells which instruction it is:
/// a reader of the code recovers the instruction from it, so no two
/// instructions share an opcode.
pub proof fn lemma_opcode_decodes(i: Instruction)
    ensures
        encode(i).len() > 0,
        decode_kind(encode(i)[0] as int / 4) == Some(kind_of(i)),
{
}

/// The two little-endian bytes of an offset read back as the offset (taken
/// as a 16-bit word).
pub proof fn lemma_offset_bytes_read_back(v: i16)
    ensures
        le_i16(v).len() == 2,
        le_i16(v)[0] as int + 256 * (le_i16(v)[1] as int) == (v as u16) as int,
{
    assert(v as u8 == (v as u16) as u8) by (bit_vector);
    assert(((v as u16) as u8) as u16 + 256u16 * ((((v as u16) >> 8u16) as u8) as u16) == v as u16) by (bit_vector);
}

/// A jump's offset stands in the two bytes after its opcode, little-endian,
/// so that a reader of the code finds where the jump lands.
pub proof fn lemma_jump_offset_bytes(i: Instruction)
    requires
        i is JMP || jump_sources(i) is Some,
    ensures
        encode(i).len() >= 3,
        encode(i)[1] as int + 256 * (encode(i)[2] as int) == (jump_offset(i) as u16) as int,
{
    lemma_offset_bytes_read_back(jump_offset(i));
}

/// A register source names a register that fits in its one byte.
pub open spec fn fits_byte(s: Source) -> bool {
    match s {
        Source::RegInter(r) | Source::RegVar(r) => r < 256,
        _ => true,
    }
}

/// Bytes an operand takes: eight for one written inline, one for a register.
pub open spec fn operand_width(s: Source) -> int {
    if written_inline(s) { 8 } else { 1 }
}

/// The eight bytes from `pos` read as a little-endian word.
pub open spec fn word_at(bytes: Seq<u8>, pos: int) -> int {
    bytes[pos] as int + 0x100 * (bytes[pos + 1] as int) + 0x1_0000 * (bytes[pos + 2] as int)
        + 0x100_0000 * (bytes[pos + 3] as int) + 0x1_0000_0000 * (bytes[pos + 4] as int)
        + 0x100_0000_0000 * (bytes[pos + 5] as int) + 0x1_0000_0000_0000 * (bytes[pos + 6] as int)
        + 0x100_0000_0000_0000 * (bytes[pos + 7] as int)
}

/// What a reader of the code takes the operand at `pos` to be: the register
/// number in one byte, or, for an operand flagged inline, the word in eight.
pub open spec fn read_operand(bytes: Seq<u8>, pos: int, inline: bool) -> int {
    if inline { word_at(bytes, pos) } else { bytes[pos] as int }
}

/// The number that stands for an operand in the code: its register, or its
/// value as a 64-bit word (`true` 1, `false` 0; a real is written as zero
/// and its bits are patched in afterwards).
pub open spec fn operand_number(s: Source) -> int {
    match s {
        Source::RegInter(r) | Source::RegVar(r) => r as int,
        Source::Int(v) => (v as u64) as int,
        Source::Bool(b) => if b { 1 } else { 0 },
        Source::Float(_) => 0,
    }
}

/// The bytes of an operation read back as its destination and its two
/// operands, one after the other, and nothing more.
pub open spec fn operation_reads_back(bytes: Seq<u8>, dest: usize, s1: Source, s2: Source) -> bool {
    &&& bytes.len() == 2 + operand_width(s1) + operand_width(s2)
    &&& bytes[1] as int == dest as int
    &&& read_operand(bytes, 2, written_inline(s1)) == operand_number(s1)
    &&& read_operand(bytes, 2 + operand_width(s1), written_inline(s2)) == operand_number(s2)
}

/// The bytes of a conditional jump read back as its two operands after the
/// opcode and the offset, and nothing more.
pub open spec fn jump_reads_back(bytes: Seq<u8>, s1: Source, s2: Source) -> bool {
    &&& bytes.len() == 3 + operand_width(s1) + operand_width(s2)
    &&& read_operand(bytes, 3, written_inline(s1)) == operand_number(s1)
    &&& read_operand(bytes, 3 + operand_width(s1), written_inline(s2)) == operand_number(s2)
}

proof fn lemma_word_reads_back(v: u64)
    ensures
        word_at(le_u64(v), 0) == v as int,
{
    let b = le_u64(v);
    assert((v as u8) as int + 0x100 * (((v >> 8u64) as u8) as int) + 0x1_0000 * (((v >> 16u64) as u8) as int)
        + 0x100_0000 * (((v >> 24u64) as u8) as int) + 0x1_0000_0000 * (((v >> 32u64) as u8) as int)
        + 0x100_0000_0000 * (((v >> 40u64) as u8) as int) + 0x1_0000_0000_0000 * (((v >> 48u64) as u8) as int)
        + 0x100_0000_0000_0000 * (((v >> 56u64) as u8) as int) == v as int) by (bit_vector);
}

/// A source's bytes, wherever they stand, read back as the source.
proof fn lemma_source_reads_back(before: Seq<u8>, s: Source, after: Seq<u8>)
    requires
        fits_byte(s),
    ensures
        (before + source_bytes(s) + after).len() == before.len() + operand_width(s) + after.len(),
        read_operand(before + source_bytes(s) + after, before.len() as int, written_inline(s)) == operand_number(s),
{
    let all = before + source_bytes(s) + after;
    let n = before.len() as int;
    match s {
        Source::RegInter(r) | Source::RegVar(r) => {
            assert(all[n] == source_bytes(s)[0]);
            assert((r as u8) as int == r as int);
        },
        _ => {
            let w: u64 = match s {
                Source::Int(v) => v as u64,
                Source::Bool(b) => if b { 1u64 } else { 0u64 },
                _ => 0u64,
            };
            assert(source_bytes(s) == le_u64(w));
            lemma_word_reads_back(w);
            assert forall|k: int| 0 <= k < 8 implies all[n + k] == le_u64(w)[k] by {}
        },
    }
}

/// An encoded operation or conditional jump reads back as its operands: a
/// reader who knows from the opcode byte which operands are inline finds
/// each at its place, and the instruction takes exactly those bytes.
pub proof fn lemma_operands_read_back(i: Instruction)
    ensures
        operands(i) matches Some((d, s1, s2)) ==> (d < 256 && fits_byte(s1) && fits_byte(s2)
            ==> operation_reads_back(encode(i), d, s1, s2)),
        jump_sources(i) matches Some((s1, s2)) ==> (fits_byte(s1) && fits_byte(s2)
            ==> jump_reads_back(encode(i), s1, s2)),
{
    match layout(i) {
        Layout::Three { code, dest, src1, src2 } => {
            if dest < 256 && fits_byte(src1) && fits_byte(src2) {
                let a = seq![(4 * code + 2 * imm_bit(src1) + imm_bit(src2)) as u8, dest as u8];
                lemma_source_reads_back(a, src1, source_bytes(src2));
                lemma_source_reads_back(a + source_bytes(src1), src2, Seq::empty());
                assert(a + source_bytes(src1) + source_bytes(src2) + Seq::<u8>::empty()
                    =~= a + source_bytes(src1) + source_bytes(src2));
                assert((a + source_bytes(src1) + source_bytes(src2))[1] == dest as u8);
            }
        },
        Layout::CondJump { code, offset, src1, src2 } => {
            if fits_byte(src1) && fits_byte(src2) {
                let a = seq![(4 * code + 2 * imm_bit(src1) + imm_bit(src2)) as u8] + le_i16(offset);
                lemma_source_reads_back(a, src1, source_bytes(src2));
                lemma_source_reads_back(a + source_bytes(src1), src2, Seq::empty());
                assert(a + source_bytes(src1) + source_bytes(src2) + Seq::<u8>::empty()
                    =~= a + source_bytes(src1) + source_bytes(src2));
            }
        },
        _ => {},
    }
}

// ---------------------------------------------------------------------------
// When a literal is a given number

/// A literal is taken for the number `k` exactly when it has the value `k`:
/// an integer literal when it is `k`, a real literal `m / 10^s` when
/// `m == k * 10^s`.
pub proof fn lemma_num_literal_value(l: Literal, k: int)
    ensures
        l matches Literal::Int(x) ==> (is_num(SExpr::Literal(l), k) <==> x == k),
        l matches Literal::Real(d) ==> (is_num(SExpr::Literal(l), k) <==> d.mantissa == k * pow(10, d.scale as nat)),
        l is Bool ==> !is_num(SExpr::Literal(l), k),
{
    if let Literal::Real(d) = l {
        lemma_pow10_is_pow(d.scale as nat);
    }
}

proof fn lemma_pow10_is_pow(n: nat)
    ensures
        pow10(n) == pow(10, n),
    decreases n,
{
    vstd::arithmetic::power::lemma_pow0(10);
    if n > 0 {
        lemma_pow10_is_pow((n - 1) as nat);
        vstd::arithmetic::power::lemma_pow_adds(10, 1, (n - 1) as nat);
        vstd::arithmetic::power::lemma_pow1(10);
    }
}

} // verus!
