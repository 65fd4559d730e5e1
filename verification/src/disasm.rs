//! Assembly text of instruction words, for display.

use crate::cpu::{
    imm_of, operation_of, rd_of, rs_of, rt_of, sign_extend16, DecodedInstruction, Operation, CPU,
};
use crate::memory::Memory;
use vstd::prelude::*;
use vstd::string::StringExecFns;

verus! {

/// The character of the digit `d`, for `d` below 16; letters are upper case.
pub open spec fn digit_char(d: nat) -> char {
    if d == 0 {
        '0'
    } else if d == 1 {
        '1'
    } else if d == 2 {
        '2'
    } else if d == 3 {
        '3'
    } else if d == 4 {
        '4'
    } else if d == 5 {
        '5'
    } else if d == 6 {
        '6'
    } else if d == 7 {
        '7'
    } else if d == 8 {
        '8'
    } else if d == 9 {
        '9'
    } else if d == 10 {
        'A'
    } else if d == 11 {
        'B'
    } else if d == 12 {
        'C'
    } else if d == 13 {
        'D'
    } else if d == 14 {
        'E'
    } else {
        'F'
    }
}

/// `n` in decimal, without leading zeros.
pub open spec fn decimal(n: nat) -> Seq<char>
    decreases n,
{
    if n < 10 {
        seq![digit_char(n)]
    } else {
        decimal(n / 10).push(digit_char(n % 10))
    }
}

/// `n` in hexadecimal, with upper-case letters and without leading zeros.
pub open spec fn upper_hex(n: nat) -> Seq<char>
    decreases n,
{
    if n < 16 {
        seq![digit_char(n)]
    } else {
        upper_hex(n / 16).push(digit_char(n % 16))
    }
}

/// `value` in decimal, with a minus sign before a negative number.
pub open spec fn signed_decimal(value: int) -> Seq<char> {
    if value < 0 {
        seq!['-'] + decimal((-value) as nat)
    } else {
        decimal(value as nat)
    }
}

/// `R` and the number of register `index`.
pub open spec fn register_name(index: u8) -> Seq<char> {
    seq!['R'] + decimal(index as nat)
}

/// The assembly text of `word`: the mnemonic and the operands of an
/// instruction of the set, and for any other word `R-type 0x` with the
/// `funct` or `Unknown 0x` with the opcode, in hexadecimal.
pub open spec fn assembly_of(word: u32) -> Seq<char> {
    let rs = register_name(rs_of(word));
    let rt = register_name(rt_of(word));
    let rd = register_name(rd_of(word));
    let imm = signed_decimal(sign_extend16(imm_of(word)));
    match operation_of(word) {
        Operation::Add => "ADD "@ + rd + ", "@ + rs + ", "@ + rt,
        Operation::Sub => "SUB "@ + rd + ", "@ + rs + ", "@ + rt,
        Operation::Slt => "SLT "@ + rd + ", "@ + rs + ", "@ + rt,
        Operation::Addi => "ADDI "@ + rt + ", "@ + rs + ", "@ + imm,
        Operation::Beq => "BEQ "@ + rs + ", "@ + rt + ", "@ + imm,
        Operation::Lw => "LW "@ + rt + ", "@ + imm + "("@ + rs + ")"@,
        Operation::Sw => "SW "@ + rt + ", "@ + imm + "("@ + rs + ")"@,
        Operation::UnknownFunct(funct) => "R-type 0x"@ + upper_hex(funct as nat),
        Operation::UnknownOpcode(opcode) => "Unknown 0x"@ + upper_hex(opcode as nat),
    }
}

/// The text of one digit.
fn digit_text(d: u32) -> (text: &'static str)
    requires
        d < 16,
    ensures
        text@ == seq![digit_char(d as nat)],
{
    proof {
        reveal_strlit("0");
        reveal_strlit("1");
        reveal_strlit("2");
        reveal_strlit("3");
        reveal_strlit("4");
        reveal_strlit("5");
        reveal_strlit("6");
        reveal_strlit("7");
        reveal_strlit("8");
        reveal_strlit("9");
        reveal_strlit("A");
        reveal_strlit("B");
        reveal_strlit("C");
        reveal_strlit("D");
        reveal_strlit("E");
        reveal_strlit("F");
    }
    let text = match d {
        0 => "0",
        1 => "1",
        2 => "2",
        3 => "3",
        4 => "4",
        5 => "5",
        6 => "6",
        7 => "7",
        8 => "8",
        9 => "9",
        10 => "A",
        11 => "B",
        12 => "C",
        13 => "D",
        14 => "E",
        _ => "F",
    };
    assert(text@ =~= seq![digit_char(d as nat)]);
    text
}

/// Appends `n` in decimal to `text`.
fn append_decimal(text: &mut String, n: u32)
    ensures
        final(text)@ == old(text)@ + decimal(n as nat),
    decreases n,
{
    if n >= 10 {
        append_decimal(text, n / 10);
    }
    text.append(digit_text(n % 10));
    assert(final(text)@ =~= old(text)@ + decimal(n as nat));
}

/// Appends `n` in hexadecimal to `text`.
fn append_upper_hex(text: &mut String, n: u32)
    ensures
        final(text)@ == old(text)@ + upper_hex(n as nat),
    decreases n,
{
    if n >= 16 {
        append_upper_hex(text, n / 16);
    }
    text.append(digit_text(n % 16));
    assert(final(text)@ =~= old(text)@ + upper_hex(n as nat));
}

/// Appends `R` and the number of register `index` to `text`.
fn append_register(text: &mut String, index: u8)
    ensures
        final(text)@ == old(text)@ + register_name(index),
{
    proof {
        reveal_strlit("R");
    }
    text.append("R");
    append_decimal(text, index as u32);
    assert(final(text)@ =~= old(text)@ + register_name(index));
}

/// Appends the immediate `imm`, read as a signed number, to `text`.
fn append_immediate(text: &mut String, imm: u16)
    ensures
        final(text)@ == old(text)@ + signed_decimal(sign_extend16(imm)),
{
    if imm >= 0x8000 {
        proof {
            reveal_strlit("-");
        }
        text.append("-");
        append_decimal(text, 0x1_0000 - imm as u32);
    } else {
        append_decimal(text, imm as u32);
    }
    assert(final(text)@ =~= old(text)@ + signed_decimal(sign_extend16(imm)));
}

/// Appends `first`, `second` and `third`, separated by `, `, to `text`.
fn append_registers(text: &mut String, first: u8, second: u8, third: u8)
    ensures
        final(text)@ == old(text)@ + register_name(first) + ", "@ + register_name(second) + ", "@
            + register_name(third),
{
    append_register(text, first);
    text.append(", ");
    append_register(text, second);
    text.append(", ");
    append_register(text, third);
}

impl CPU {
    /// The assembly text of `instruction`.
    pub fn translate_to_assembly(instruction: u32) -> (text: String)
        ensures
            text@ == assembly_of(instruction),
    {
        let rs = Self::rs(instruction);
        let rt = Self::rt(instruction);
        let rd = Self::rd(instruction);
        let imm = Self::imm(instruction);
        match Self::operation(instruction) {
            Operation::Add => {
                let mut text = String::from_str("ADD ");
                append_registers(&mut text, rd, rs, rt);
                text
            },
            Operation::Sub => {
                let mut text = String::from_str("SUB ");
                append_registers(&mut text, rd, rs, rt);
                text
            },
            Operation::Slt => {
                let mut text = String::from_str("SLT ");
                append_registers(&mut text, rd, rs, rt);
                text
            },
            Operation::Addi => {
                let mut text = String::from_str("ADDI ");
                append_register(&mut text, rt);
                text.append(", ");
                append_register(&mut text, rs);
                text.append(", ");
                append_immediate(&mut text, imm);
                text
            },
            Operation::Beq => {
                let mut text = String::from_str("BEQ ");
                append_register(&mut text, rs);
                text.append(", ");
                append_register(&mut text, rt);
                text.append(", ");
                append_immediate(&mut text, imm);
                text
            },
            Operation::Lw => {
                let mut text = String::from_str("LW ");
                append_register(&mut text, rt);
                text.append(", ");
                append_immediate(&mut text, imm);
                text.append("(");
                append_register(&mut text, rs);
                text.append(")");
                text
            },
            Operation::Sw => {
                let mut text = String::from_str("SW ");
                append_register(&mut text, rt);
                text.append(", ");
                append_immediate(&mut text, imm);
                text.append("(");
                append_register(&mut text, rs);
                text.append(")");
                text
            },
            Operation::UnknownFunct(funct) => {
                let mut text = String::from_str("R-type 0x");
                append_upper_hex(&mut text, funct as u32);
                text
            },
            Operation::UnknownOpcode(opcode) => {
                let mut text = String::from_str("Unknown 0x");
                append_upper_hex(&mut text, opcode as u32);
                text
            },
        }
    }

    /// `instruction` as a decoded instruction that carries its assembly text.
    pub fn decode(instruction: u32) -> (decoded: DecodedInstruction)
        ensures
            decoded matches DecodedInstruction::Instruction(text) && text@ == assembly_of(
                instruction,
            ),
    {
        DecodedInstruction::Instruction(Self::translate_to_assembly(instruction))
    }

    /// The assembly text of the word at the program counter, and `None`
    /// where memory holds nothing there.
    pub fn get_current_instruction_name(&self, memory: &Memory) -> (name: String)
        ensures
            name@ == if memory@.data.contains_key(self.pc) {
                assembly_of(memory@.data[self.pc])
            } else {
                "None"@
            },
    {
        match memory.data.get(&self.pc) {
            Some(word) => Self::translate_to_assembly(*word),
            None => String::from_str("None"),
        }
    }
}

} // verus!
