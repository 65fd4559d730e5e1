//! A small assembler: instruction words from fields, and from lines of the
//! shapes `r1 = r2 + r3` and `load r1, 32`.

use crate::cpu::{
    funct_of, imm_of, opcode_of, rd_of, rs_of, rt_of, shamt_of, FUNCT_ADD, OPCODE_LW,
    OPCODE_RTYPE,
};
use crate::loader::{characters, is_space, is_space_char, parse_unsigned, unsigned};
use crate::memory::{Memory, MemoryModel, WordKind};
use vstd::prelude::*;

verus! {

/// How many words of a program are taken into memory.
pub const PROGRAM_LIMIT: usize = 64;

/// The register-form word with the given fields, each at its place.
pub open spec fn encode_r(opcode: u8, rs: u8, rt: u8, rd: u8, shamt: u8, funct: u8) -> u32 {
    ((opcode as u32) << 26) | ((rs as u32) << 21) | ((rt as u32) << 16) | ((rd as u32) << 11) | ((
    shamt as u32) << 6) | (funct as u32)
}

/// The immediate-form word with the given fields, each at its place.
pub open spec fn encode_i(opcode: u8, rs: u8, rt: u8, imm: u16) -> u32 {
    ((opcode as u32) << 26) | ((rs as u32) << 21) | ((rt as u32) << 16) | (imm as u32)
}

/// A register-form word decodes to the fields that it was made of, where
/// each of them fits its place.
pub proof fn lemma_decode_encode_r(opcode: u8, rs: u8, rt: u8, rd: u8, shamt: u8, funct: u8)
    requires
        opcode < 64,
        rs < 32,
        rt < 32,
        rd < 32,
        shamt < 32,
        funct < 64,
    ensures
        opcode_of(encode_r(opcode, rs, rt, rd, shamt, funct)) == opcode,
        rs_of(encode_r(opcode, rs, rt, rd, shamt, funct)) == rs,
        rt_of(encode_r(opcode, rs, rt, rd, shamt, funct)) == rt,
        rd_of(encode_r(opcode, rs, rt, rd, shamt, funct)) == rd,
        shamt_of(encode_r(opcode, rs, rt, rd, shamt, funct)) == shamt,
        funct_of(encode_r(opcode, rs, rt, rd, shamt, funct)) == funct,
{
    let word = encode_r(opcode, rs, rt, rd, shamt, funct);
    assert(word / 0x400_0000 == opcode && word / 0x20_0000 % 32 == rs && word / 0x1_0000 % 32
        == rt && word / 0x800 % 32 == rd && word / 0x40 % 32 == shamt && word % 64 == funct)
        by (bit_vector)
        requires
            word == ((opcode as u32) << 26) | ((rs as u32) << 21) | ((rt as u32) << 16) | ((
            rd as u32) << 11) | ((shamt as u32) << 6) | (funct as u32),
            opcode < 64,
            rs < 32,
            rt < 32,
            rd < 32,
            shamt < 32,
            funct < 64,
    ;
}

/// An immediate-form word decodes to the fields that it was made of, where
/// each of them fits its place.
pub proof fn lemma_decode_encode_i(opcode: u8, rs: u8, rt: u8, imm: u16)
    requires
        opcode < 64,
        rs < 32,
        rt < 32,
    ensures
        opcode_of(encode_i(opcode, rs, rt, imm)) == opcode,
        rs_of(encode_i(opcode, rs, rt, imm)) == rs,
        rt_of(encode_i(opcode, rs, rt, imm)) == rt,
        imm_of(encode_i(opcode, rs, rt, imm)) == imm,
{
    let word = encode_i(opcode, rs, rt, imm);
    assert(word / 0x400_0000 == opcode && word / 0x20_0000 % 32 == rs && word / 0x1_0000 % 32
        == rt && word % 0x1_0000 == imm) by (bit_vector)
        requires
            word == ((opcode as u32) << 26) | ((rs as u32) << 21) | ((rt as u32) << 16) | (
            imm as u32),
            opcode < 64,
            rs < 32,
            rt < 32,
    ;
}

/// The first place at or after `from` where `text` has `a` or `b`; the
/// length of `text`, or `from` if that is more, where it has neither.
pub open spec fn find_either(text: Seq<char>, a: char, b: char, from: int) -> int
    decreases text.len() - from,
{
    if 0 <= from < text.len() && text[from] != a && text[from] != b {
        find_either(text, a, b, from + 1)
    } else {
        from
    }
}

/// `text` without the white space in front of it.
pub open spec fn trim_start(text: Seq<char>) -> Seq<char>
    decreases text.len(),
{
    if text.len() > 0 && is_space(text[0]) {
        trim_start(text.skip(1))
    } else {
        text
    }
}

/// `text` without the white space at its end.
pub open spec fn trim_end(text: Seq<char>) -> Seq<char>
    decreases text.len(),
{
    if text.len() > 0 && is_space(text.last()) {
        trim_end(text.drop_last())
    } else {
        text
    }
}

/// `text` without the white space around it.
pub open spec fn trim(text: Seq<char>) -> Seq<char> {
    trim_end(trim_start(text))
}

/// The register that `text` names: `r` and a decimal number below 32.
pub open spec fn register_of(text: Seq<char>) -> Option<u8> {
    if text.len() > 0 && text[0] == 'r' {
        match unsigned(text.skip(1), 10, 0xFF) {
            Some(number) => if number < 32 {
                Some(number as u8)
            } else {
                None
            },
            None => None,
        }
    } else {
        None
    }
}

/// The ADD that a line of the shape `dest = left + right` asks for: three
/// registers with one `=` and one `+` between them, in any order.
pub open spec fn addition_of(line: Seq<char>) -> Option<u32> {
    let first = find_either(line, '=', '+', 0);
    let second = find_either(line, '=', '+', first + 1);
    if first < line.len() && second < line.len() && find_either(line, '=', '+', second + 1)
        >= line.len() {
        match (
            register_of(trim(line.subrange(0, first))),
            register_of(trim(line.subrange(first + 1, second))),
            register_of(trim(line.subrange(second + 1, line.len() as int))),
        ) {
            (Some(dest), Some(left), Some(right)) => Some(
                encode_r(OPCODE_RTYPE, left, right, dest, 0, FUNCT_ADD),
            ),
            _ => None,
        }
    } else {
        None
    }
}

/// The LW that what follows `load` asks for: a register and a decimal
/// offset of at most 65535, with one comma between them. The base register
/// is register 0.
pub open spec fn load_of(operands: Seq<char>) -> Option<u32> {
    let comma = find_either(operands, ',', ',', 0);
    if comma < operands.len() && find_either(operands, ',', ',', comma + 1) >= operands.len() {
        match (
            register_of(trim(operands.subrange(0, comma))),
            unsigned(trim(operands.subrange(comma + 1, operands.len() as int)), 10, 0xFFFF),
        ) {
            (Some(dest), Some(offset)) => Some(encode_i(OPCODE_LW, 0, dest, offset as u16)),
            _ => None,
        }
    } else {
        None
    }
}

/// `text` starts with `load`.
pub open spec fn is_load(text: Seq<char>) -> bool {
    text.len() >= 4 && text[0] == 'l' && text[1] == 'o' && text[2] == 'a' && text[3] == 'd'
}

/// The instruction word that `line` asks for. A line with both `=` and `+`
/// in it is read as an addition; any other line that starts with `load` as a
/// load; no other line asks for an instruction.
pub open spec fn instruction_of(line: Seq<char>) -> Option<u32> {
    if line.contains('=') && line.contains('+') {
        addition_of(line)
    } else if is_load(line) {
        load_of(line.skip(4))
    } else {
        None
    }
}

/// The instruction words of one line of a program: none for an empty line,
/// for one that starts with `#`, and for one that asks for no instruction.
pub open spec fn words_of_line(line: Seq<char>) -> Seq<u32> {
    let text = trim(line);
    if text.len() == 0 || text[0] == '#' {
        Seq::empty()
    } else {
        match instruction_of(text) {
            Some(word) => seq![word],
            None => Seq::empty(),
        }
    }
}

/// The instruction words of the program `code`, line by line.
pub open spec fn compiled(code: Seq<char>) -> Seq<u32>
    decreases code.len(),
{
    if code.len() == 0 {
        Seq::empty()
    } else {
        let end = find_either(code, '\n', '\n', 0);
        let first = words_of_line(code.subrange(0, end));
        if 0 <= end < code.len() {
            first + compiled(code.skip(end + 1))
        } else {
            first
        }
    }
}

impl MemoryModel {
    /// The memory after the first [`PROGRAM_LIMIT`] words of `words` were
    /// stored at the addresses from 0 on, tagged as instructions.
    pub open spec fn with_program(self, words: Seq<u32>) -> MemoryModel {
        let count = if words.len() < PROGRAM_LIMIT {
            words.len() as int
        } else {
            PROGRAM_LIMIT as int
        };
        MemoryModel {
            data: Map::new(
                |address: u8| address < count || self.data.contains_key(address),
                |address: u8|
                    if address < count {
                        words[address as int]
                    } else {
                        self.data[address]
                    },
            ),
            kinds: Map::new(
                |address: u8| address < count || self.kinds.contains_key(address),
                |address: u8|
                    if address < count {
                        WordKind::Instruction
                    } else {
                        self.kinds[address]
                    },
            ),
        }
    }
}

/// Puts the fields of a register-form instruction at their places.
pub fn build_r_type(opcode: u8, rs: u8, rt: u8, rd: u8, shamt: u8, funct: u8) -> (word: u32)
    ensures
        word == encode_r(opcode, rs, rt, rd, shamt, funct),
{
    ((opcode as u32) << 26) | ((rs as u32) << 21) | ((rt as u32) << 16) | ((rd as u32) << 11) | ((
    shamt as u32) << 6) | (funct as u32)
}

/// Puts the fields of an immediate-form instruction at their places.
pub fn build_i_type(opcode: u8, rs: u8, rt: u8, imm: u16) -> (word: u32)
    ensures
        word == encode_i(opcode, rs, rt, imm),
{
    ((opcode as u32) << 26) | ((rs as u32) << 21) | ((rt as u32) << 16) | (imm as u32)
}

fn find_either_from(text: &Vec<char>, a: char, b: char, from: usize) -> (place: usize)
    requires
        from <= text@.len(),
    ensures
        place == find_either(text@, a, b, from as int),
        from <= place <= text@.len(),
{
    let mut i = from;
    while i < text.len() && text[i] != a && text[i] != b
        invariant
            from <= i <= text@.len(),
            find_either(text@, a, b, from as int) == find_either(text@, a, b, i as int),
        decreases text@.len() - i,
    {
        i += 1;
    }
    i
}

/// The part of `text` from `from` to `to`, without the white space around it.
fn trimmed_part(text: &Vec<char>, from: usize, to: usize) -> (part: Vec<char>)
    requires
        from <= to <= text@.len(),
    ensures
        part@ == trim(text@.subrange(from as int, to as int)),
{
    let mut start = from;
    while start < to && is_space_char(text[start])
        invariant
            from <= start <= to <= text@.len(),
            trim_start(text@.subrange(from as int, to as int)) == trim_start(
                text@.subrange(start as int, to as int),
            ),
        decreases to - start,
    {
        assert(text@.subrange(start as int, to as int).skip(1) =~= text@.subrange(
            start as int + 1,
            to as int,
        ));
        start += 1;
    }
    let mut end = to;
    while start < end && is_space_char(text[end - 1])
        invariant
            from <= start <= end <= to <= text@.len(),
            trim(text@.subrange(from as int, to as int)) == trim_end(
                text@.subrange(start as int, end as int),
            ),
        decreases end - start,
    {
        assert(text@.subrange(start as int, end as int).drop_last() =~= text@.subrange(
            start as int,
            end as int - 1,
        ));
        end -= 1;
    }
    let mut part: Vec<char> = Vec::new();
    let mut i = start;
    while i < end
        invariant
            start <= i <= end <= text@.len(),
            part@ == text@.subrange(start as int, i as int),
        decreases end - i,
    {
        part.push(text[i]);
        assert(part@ =~= text@.subrange(start as int, i as int + 1));
        i += 1;
    }
    part
}

fn register_in(text: &Vec<char>) -> (register: Option<u8>)
    ensures
        register == register_of(text@),
{
    if text.len() > 0 && text[0] == 'r' {
        assert(text@.skip(1) =~= text@.subrange(1, text@.len() as int));
        match parse_unsigned(text, 1, text.len(), 10, 0xFF) {
            Some(number) => if number < 32 {
                Some(number as u8)
            } else {
                None
            },
            None => None,
        }
    } else {
        None
    }
}

fn contains_char(text: &Vec<char>, c: char) -> (found: bool)
    ensures
        found == text@.contains(c),
{
    let mut i: usize = 0;
    while i < text.len()
        invariant
            i <= text@.len(),
            forall|j: int| 0 <= j < i ==> text@[j] != c,
        decreases text@.len() - i,
    {
        if text[i] == c {
            return true;
        }
        i += 1;
    }
    false
}

fn addition_in(line: &Vec<char>) -> (word: Option<u32>)
    ensures
        word == addition_of(line@),
{
    let first = find_either_from(line, '=', '+', 0);
    if first >= line.len() {
        return None;
    }
    let second = find_either_from(line, '=', '+', first + 1);
    if second >= line.len() {
        return None;
    }
    if find_either_from(line, '=', '+', second + 1) < line.len() {
        return None;
    }
    let dest = register_in(&trimmed_part(line, 0, first));
    let left = register_in(&trimmed_part(line, first + 1, second));
    let right = register_in(&trimmed_part(line, second + 1, line.len()));
    match (dest, left, right) {
        (Some(dest), Some(left), Some(right)) => Some(build_r_type(0, left, right, dest, 0, 0x20)),
        _ => None,
    }
}

fn load_in(line: &Vec<char>) -> (word: Option<u32>)
    requires
        is_load(line@),
    ensures
        word == load_of(line@.skip(4)),
{
    let ghost operands = line@.skip(4);
    let mut rest: Vec<char> = Vec::new();
    let mut i: usize = 4;
    while i < line.len()
        invariant
            4 <= i <= line@.len(),
            rest@ == line@.subrange(4, i as int),
        decreases line@.len() - i,
    {
        rest.push(line[i]);
        assert(rest@ =~= line@.subrange(4, i as int + 1));
        i += 1;
    }
    assert(rest@ =~= operands);
    let comma = find_either_from(&rest, ',', ',', 0);
    if comma >= rest.len() {
        return None;
    }
    if find_either_from(&rest, ',', ',', comma + 1) < rest.len() {
        return None;
    }
    let dest = register_in(&trimmed_part(&rest, 0, comma));
    let number = trimmed_part(&rest, comma + 1, rest.len());
    assert(number@.subrange(0, number@.len() as int) =~= number@);
    let offset = parse_unsigned(&number, 0, number.len(), 10, 0xFFFF);
    match (dest, offset) {
        (Some(dest), Some(offset)) => Some(build_i_type(0x23, 0, dest, offset as u16)),
        _ => None,
    }
}

fn instruction_in(line: &Vec<char>) -> (word: Option<u32>)
    ensures
        word == instruction_of(line@),
{
    if contains_char(line, '=') && contains_char(line, '+') {
        addition_in(line)
    } else if line.len() >= 4 && line[0] == 'l' && line[1] == 'o' && line[2] == 'a' && line[3]
        == 'd' {
        load_in(line)
    } else {
        None
    }
}

/// The register that `reg` names: `r` and a decimal number below 32.
pub fn parse_register(reg: &str) -> (register: Option<u8>)
    ensures
        register == register_of(reg@),
{
    register_in(&characters(reg))
}

/// The instruction word that `line` asks for, if it asks for one.
pub fn translate_line_to_instruction(line: &str) -> (word: Option<u32>)
    ensures
        word == instruction_of(line@),
{
    instruction_in(&characters(line))
}

/// Compiles a program, line by line. Empty lines, lines that start with
/// `#` and lines that ask for no instruction give no word.
pub fn compile_code(code: &str) -> (instructions: Vec<u32>)
    ensures
        instructions@ == compiled(code@),
{
    let text = characters(code);
    let mut instructions: Vec<u32> = Vec::new();
    let mut start: usize = 0;
    assert(text@.skip(0) =~= text@);
    while start < text.len()
        invariant
            start <= text@.len(),
            compiled(text@) == instructions@ + compiled(text@.skip(start as int)),
        decreases text@.len() - start,
    {
        let ghost rest = text@.skip(start as int);
        let ghost before = instructions@;
        let end = find_either_from(&text, '\n', '\n', start);
        proof {
            lemma_find_either_skip(text@, '\n', '\n', start as int, start as int);
            assert(rest.subrange(0, end - start) =~= text@.subrange(start as int, end as int));
            if end < text.len() {
                assert(rest.skip(end - start + 1) =~= text@.skip(end as int + 1));
            }
        }
        let line = trimmed_part(&text, start, end);
        if line.len() > 0 && line[0] != '#' {
            match instruction_in(&line) {
                Some(word) => {
                    instructions.push(word);
                },
                None => {},
            }
        }
        proof {
            let first = words_of_line(rest.subrange(0, end - start));
            assert(instructions@ =~= before + first);
            assert(compiled(rest) == if end < text.len() {
                first + compiled(rest.skip(end - start + 1))
            } else {
                first
            });
            if end < text.len() {
                assert(before + (first + compiled(text@.skip(end as int + 1))) =~= (before
                    + first) + compiled(text@.skip(end as int + 1)));
            } else {
                assert(text@.skip(end as int) =~= Seq::<char>::empty());
                assert(before + first =~= (before + first) + compiled(text@.skip(end as int)));
            }
        }
        if end < text.len() {
            start = end + 1;
        } else {
            start = end;
        }
    }
    assert(text@.skip(start as int) =~= Seq::<char>::empty());
    instructions
}

/// Searching a suffix finds the same place as searching the whole text.
proof fn lemma_find_either_skip(text: Seq<char>, a: char, b: char, start: int, from: int)
    requires
        0 <= start <= from <= text.len(),
    ensures
        find_either(text.skip(start), a, b, from - start) == find_either(text, a, b, from) - start,
    decreases text.len() - from,
{
    if from < text.len() && text[from] != a && text[from] != b {
        lemma_find_either_skip(text, a, b, start, from + 1);
    }
}

impl Memory {
    /// Stores the first [`PROGRAM_LIMIT`] words of `instructions` at the
    /// addresses from 0 on, tagged as instructions. Other addresses keep
    /// what they hold.
    pub fn load_compiled_instructions(&mut self, instructions: &Vec<u32>)
        ensures
            final(self)@ == old(self)@.with_program(instructions@),
    {
        let count = if instructions.len() < PROGRAM_LIMIT {
            instructions.len()
        } else {
            PROGRAM_LIMIT
        };
        let mut address: usize = 0;
        while address < count
            invariant
                address <= count <= PROGRAM_LIMIT,
                count <= instructions@.len(),
                forall|a: u8|
                    self.data@.contains_key(a) <==> a < address || old(self).data@.contains_key(a),
                forall|a: u8|
                    self.kinds@.contains_key(a) <==> a < address || old(self).kinds@.contains_key(
                        a,
                    ),
                forall|a: u8|
                    #![trigger self.data@[a]]
                    self.data@.contains_key(a) ==> self.data@[a] == if a < address {
                        instructions@[a as int]
                    } else {
                        old(self).data@[a]
                    },
                forall|a: u8|
                    #![trigger self.kinds@[a]]
                    self.kinds@.contains_key(a) ==> self.kinds@[a] == if a < address {
                        WordKind::Instruction
                    } else {
                        old(self).kinds@[a]
                    },
            decreases count - address,
        {
            self.store(address as u8, instructions[address], WordKind::Instruction);
            address += 1;
        }
        proof {
            let expected = old(self)@.with_program(instructions@);
            assert(self@.data =~= expected.data);
            assert(self@.kinds =~= expected.kinds);
        }
    }
}

} // verus!
