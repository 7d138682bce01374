use loi_compiler::compiled_rel::write_immediate;
use loi_compiler::ir::{lower_ir, Instruction, Source};
use loi_compiler::token::Decimal;

/// The value of an exact decimal, as the simulator reads a real.
fn to_f64(d: &Decimal) -> f64 {
    d.mantissa as f64 / 10f64.powi(d.scale as i32)
}

/// The bytes of the instructions, with the bits of each real immediate written in.
fn lowered(code: Vec<Instruction>) -> Vec<u8> {
    let (mut bytes, patches) = lower_ir(code);
    for patch in &patches {
        write_immediate(&mut bytes, patch.pos, to_f64(&patch.value).to_bits());
    }
    bytes
}

/// The opcode number of a mnemonic and how its operands are laid out:
/// 3 = dest and two sources, 2 = dest and one source, 'j' = offset and two sources.
fn opcode(mnemonic: &str) -> (u8, char) {
    match mnemonic {
        "IADD" => (0b000000, '3'),
        "ISUB" => (0b000001, '3'),
        "IMUL" => (0b000010, '3'),
        "IDIV" => (0b000011, '3'),
        "IPOW" => (0b000100, '3'),
        "IABS" => (0b000101, '2'),
        "IMOD" => (0b000110, '3'),
        "FADD" => (0b001000, '3'),
        "FSUB" => (0b001001, '3'),
        "FMUL" => (0b001010, '3'),
        "FDIV" => (0b001011, '3'),
        "FPOW" => (0b001100, '3'),
        "FABS" => (0b001101, '2'),
        "AND" => (0b010000, '3'),
        "OR" => (0b010001, '3'),
        "NOT" => (0b010010, '2'),
        "XOR" => (0b010011, '3'),
        "I2F" => (0b010110, '2'),
        "IJEQ" => (0b100010, 'j'),
        "IJNE" => (0b100011, 'j'),
        "IJLT" => (0b100100, 'j'),
        "IJLE" => (0b100101, 'j'),
        "IJGT" => (0b100110, 'j'),
        "IJGE" => (0b100111, 'j'),
        "FJEQ" => (0b101010, 'j'),
        "FJNE" => (0b101011, 'j'),
        "FJLT" => (0b101100, 'j'),
        "FJLE" => (0b101101, 'j'),
        "FJGT" => (0b101110, 'j'),
        "FJGE" => (0b101111, 'j'),
        "MOV" => (0b110000, '2'),
        "IEQ" => (0b110010, '3'),
        "INE" => (0b110011, '3'),
        "ILT" => (0b110100, '3'),
        "ILE" => (0b110101, '3'),
        "IGT" => (0b110110, '3'),
        "IGE" => (0b110111, '3'),
        "FEQ" => (0b111010, '3'),
        "FNE" => (0b111011, '3'),
        "FLT" => (0b111100, '3'),
        "FLE" => (0b111101, '3'),
        "FGT" => (0b111110, '3'),
        "FGE" => (0b111111, '3'),
        other => panic!("unknown mnemonic {}", other),
    }
}

/// A source operand: `rN` a register, `iN` an integer, `fX` a real.
fn operand(text: &str) -> (bool, Vec<u8>) {
    let (kind, value) = text.split_at(1);
    match kind {
        "r" => (false, vec![value.parse::<u8>().unwrap()]),
        "i" => (true, value.parse::<i64>().unwrap().to_le_bytes().to_vec()),
        "f" => (true, value.parse::<f64>().unwrap().to_bits().to_le_bytes().to_vec()),
        _ => panic!("bad operand {}", text),
    }
}

fn offset(text: &str) -> Vec<u8> {
    text.strip_prefix('o').unwrap().parse::<i16>().unwrap().to_le_bytes().to_vec()
}

fn register(text: &str) -> u8 {
    text.strip_prefix('r').unwrap().parse::<u8>().unwrap()
}

/// Assembles one instruction per line; `#` starts a comment line.
fn assemble(text: &str) -> Vec<u8> {
    let mut bytes = Vec::new();
    for line in text.lines().map(str::trim).filter(|l| !l.is_empty() && !l.starts_with('#')) {
        let parts: Vec<&str> = line.split_whitespace().collect();
        match parts[0] {
            "JMP" => {
                bytes.push(0b1000_0000);
                bytes.extend(offset(parts[1]));
            },
            "RND" => {
                bytes.push(0b1110_0000);
                bytes.push(register(parts[1]));
            },
            "RET" => {
                let (imm, src) = operand(parts[1]);
                bytes.push((0b101000 << 2) | ((imm as u8) << 1));
                bytes.extend(src);
            },
            "ERR" => {
                let code = parts[1].strip_prefix('b').unwrap().parse::<u8>().unwrap();
                match parts.get(2) {
                    Some(src) => {
                        let (imm, src) = operand(src);
                        bytes.push((0b101001 << 2) | 0b10 | (imm as u8));
                        bytes.push(code);
                        bytes.extend(src);
                    },
                    None => {
                        bytes.push(0b101001 << 2);
                        bytes.push(code);
                    },
                }
            },
            mnemonic => {
                let (code, layout) = opcode(mnemonic);
                match layout {
                    '3' => {
                        let (imm1, src1) = operand(parts[2]);
                        let (imm2, src2) = operand(parts[3]);
                        bytes.push((code << 2) | ((imm1 as u8) << 1) | (imm2 as u8));
                        bytes.push(register(parts[1]));
                        bytes.extend(src1);
                        bytes.extend(src2);
                    },
                    '2' => {
                        let (imm, src) = operand(parts[2]);
                        bytes.push((code << 2) | ((imm as u8) << 1));
                        bytes.push(register(parts[1]));
                        bytes.extend(src);
                    },
                    _ => {
                        let (imm1, src1) = operand(parts[2]);
                        let (imm2, src2) = operand(parts[3]);
                        bytes.push((code << 2) | ((imm1 as u8) << 1) | (imm2 as u8));
                        bytes.extend(offset(parts[1]));
                        bytes.extend(src1);
                        bytes.extend(src2);
                    },
                }
            },
        }
    }
    bytes
}

fn dec(mantissa: i64, scale: u32) -> Decimal {
    Decimal { mantissa, scale }
}

fn r(n: usize) -> Source {
    Source::RegInter(n)
}

#[test]
fn test_all_instructions() {
    let result = lowered(vec![
        Instruction::IADD { dest: 1, src1: r(0), src2: Source::Int(23) },
        Instruction::FMUL { dest: 2, src1: Source::RegVar(1), src2: Source::Float(dec(-225, 2)) },
        Instruction::IABS { dest: 0, src: r(1) },
        Instruction::AND { dest: 0, src1: r(1), src2: r(2) },
        Instruction::NOT { dest: 0, src: Source::Int(1) },
        Instruction::I2F { dest: 0, src: r(1) },
        Instruction::JMP { offset: 48 },
        Instruction::IMOD { dest: 0, src1: r(1), src2: Source::Int(2) },
        Instruction::IEQ { dest: 0, src1: r(1), src2: Source::RegVar(2) },
        Instruction::FJGE { offset: 48, src1: r(0), src2: r(1) },
        Instruction::MOV { dest: 0, src: Source::Float(dec(30, 1)) },
        Instruction::RET { src: r(0) },
        Instruction::RET { src: Source::Int(1) },
        Instruction::RND { dest: 0 },
        Instruction::ERR { code: 4, src: Some(Source::Int(0)) },
        Instruction::ERR { code: 3, src: None },
    ]);

    let test = assemble("
# test
IADD r1 r0 i23
FMUL r2 r1 f-2.25
IABS r0 r1
AND r0 r1 r2
NOT r0 i1
I2F r0 r1
JMP o48
IMOD r0 r1 i2
IEQ r0 r1 r2
FJGE o48 r0 r1
MOV r0 f3.0
RET r0
RET i1
RND r0
ERR b4 i0
ERR b3
    ");

    assert_eq!(result, test);
}

#[test]
fn exaustive_test() {
    let three = |make: fn(usize, Source, Source) -> Instruction| make(0, r(0), r(0));
    let jump = |make: fn(i16, Source, Source) -> Instruction| make(0, r(0), r(0));
    let result = lowered(vec![
        three(|dest, src1, src2| Instruction::IADD { dest, src1, src2 }),
        three(|dest, src1, src2| Instruction::ISUB { dest, src1, src2 }),
        three(|dest, src1, src2| Instruction::IMUL { dest, src1, src2 }),
        three(|dest, src1, src2| Instruction::IDIV { dest, src1, src2 }),
        three(|dest, src1, src2| Instruction::IPOW { dest, src1, src2 }),
        Instruction::IABS { dest: 0, src: r(0) },
        three(|dest, src1, src2| Instruction::IMOD { dest, src1, src2 }),
        three(|dest, src1, src2| Instruction::FADD { dest, src1, src2 }),
        three(|dest, src1, src2| Instruction::FSUB { dest, src1, src2 }),
        three(|dest, src1, src2| Instruction::FMUL { dest, src1, src2 }),
        three(|dest, src1, src2| Instruction::FDIV { dest, src1, src2 }),
        three(|dest, src1, src2| Instruction::FPOW { dest, src1, src2 }),
        Instruction::FABS { dest: 0, src: r(0) },
        three(|dest, src1, src2| Instruction::AND { dest, src1, src2 }),
        three(|dest, src1, src2| Instruction::OR { dest, src1, src2 }),
        Instruction::NOT { dest: 0, src: r(0) },
        three(|dest, src1, src2| Instruction::XOR { dest, src1, src2 }),
        Instruction::I2F { dest: 0, src: r(0) },
        Instruction::JMP { offset: 0 },
        jump(|offset, src1, src2| Instruction::IJEQ { offset, src1, src2 }),
        jump(|offset, src1, src2| Instruction::IJNE { offset, src1, src2 }),
        jump(|offset, src1, src2| Instruction::IJLT { offset, src1, src2 }),
        jump(|offset, src1, src2| Instruction::IJGT { offset, src1, src2 }),
        jump(|offset, src1, src2| Instruction::IJLE { offset, src1, src2 }),
        jump(|offset, src1, src2| Instruction::IJGE { offset, src1, src2 }),
        jump(|offset, src1, src2| Instruction::FJEQ { offset, src1, src2 }),
        jump(|offset, src1, src2| Instruction::FJNE { offset, src1, src2 }),
        jump(|offset, src1, src2| Instruction::FJLT { offset, src1, src2 }),
        jump(|offset, src1, src2| Instruction::FJGT { offset, src1, src2 }),
        jump(|offset, src1, src2| Instruction::FJLE { offset, src1, src2 }),
        jump(|offset, src1, src2| Instruction::FJGE { offset, src1, src2 }),
        three(|dest, src1, src2| Instruction::IEQ { dest, src1, src2 }),
        three(|dest, src1, src2| Instruction::INE { dest, src1, src2 }),
        three(|dest, src1, src2| Instruction::ILT { dest, src1, src2 }),
        three(|dest, src1, src2| Instruction::IGT { dest, src1, src2 }),
        three(|dest, src1, src2| Instruction::ILE { dest, src1, src2 }),
        three(|dest, src1, src2| Instruction::IGE { dest, src1, src2 }),
        three(|dest, src1, src2| Instruction::FEQ { dest, src1, src2 }),
        three(|dest, src1, src2| Instruction::FNE { dest, src1, src2 }),
        three(|dest, src1, src2| Instruction::FLT { dest, src1, src2 }),
        three(|dest, src1, src2| Instruction::FGT { dest, src1, src2 }),
        three(|dest, src1, src2| Instruction::FLE { dest, src1, src2 }),
        three(|dest, src1, src2| Instruction::FGE { dest, src1, src2 }),
        Instruction::MOV { dest: 0, src: r(0) },
        Instruction::RET { src: r(0) },
        Instruction::ERR { code: 0, src: None },
        Instruction::RND { dest: 0 },
    ]);

    let test = assemble("
# test
IADD r0 r0 r0
ISUB r0 r0 r0
IMUL r0 r0 r0
IDIV r0 r0 r0
IPOW r0 r0 r0
IABS r0 r0
IMOD r0 r0 r0

FADD r0 r0 r0
FSUB r0 r0 r0
FMUL r0 r0 r0
FDIV r0 r0 r0
FPOW r0 r0 r0
FABS r0 r0

AND r0 r0 r0
OR r0 r0 r0
NOT r0 r0
XOR r0 r0 r0

I2F r0 r0
JMP o0

IJEQ o0 r0 r0
IJNE o0 r0 r0
IJLT o0 r0 r0
IJGT o0 r0 r0
IJLE o0 r0 r0
IJGE o0 r0 r0

FJEQ o0 r0 r0
FJNE o0 r0 r0
FJLT o0 r0 r0
FJGT o0 r0 r0
FJLE o0 r0 r0
FJGE o0 r0 r0

IEQ r0 r0 r0
INE r0 r0 r0
ILT r0 r0 r0
IGT r0 r0 r0
ILE r0 r0 r0
IGE r0 r0 r0

FEQ r0 r0 r0
FNE r0 r0 r0
FLT r0 r0 r0
FGT r0 r0 r0
FLE r0 r0 r0
FGE r0 r0 r0

MOV r0 r0
RET r0
ERR b0
RND r0
    ");

    assert_eq!(result, test);
}

#[test]
fn negative_offset_little_endian() {
    assert_eq!(lowered(vec![Instruction::JMP { offset: -3 }]), vec![0x80, 0xfd, 0xff]);
}

#[test]
fn booleans_encode_as_one_and_zero() {
    let bytes = lowered(vec![Instruction::MOV { dest: 5, src: Source::Bool(true) }, Instruction::RET { src: Source::Bool(false) }]);
    assert_eq!(bytes, vec![0b1100_0010, 5, 1, 0, 0, 0, 0, 0, 0, 0, 0b1010_0010, 0, 0, 0, 0, 0, 0, 0, 0]);
}

#[test]
fn lower_ir_of_concatenation_is_concatenation() {
    let a = vec![Instruction::MOV { dest: 2, src: Source::Int(7) }, Instruction::RND { dest: 3 }];
    let b = vec![Instruction::RET { src: Source::RegInter(2) }];
    let mut both = a.clone();
    both.extend(b.clone());
    let (bytes_a, _) = lower_ir(a);
    let (bytes_b, _) = lower_ir(b);
    let (bytes_both, _) = lower_ir(both);
    let mut joined = bytes_a;
    joined.extend(bytes_b);
    assert_eq!(bytes_both, joined);
}
