use cpu_simulator::assembler::{
    build_i_type, build_r_type, compile_code, parse_register, translate_line_to_instruction,
    PROGRAM_LIMIT,
};
use cpu_simulator::cpu::CPU;
use cpu_simulator::loader::parse_line;
use cpu_simulator::memory::{Memory, WordKind};

#[test]
fn a_line_holds_an_address_and_a_word() {
    assert_eq!(parse_line("0x00 00000000000000000000001010"), Some((0, 10)));
    assert_eq!(parse_line("0x1F 101"), Some((31, 5)));
    assert_eq!(parse_line("1f 101"), Some((31, 5)));
    assert_eq!(parse_line("FF 0"), Some((255, 0)));
    assert_eq!(parse_line("0x0A 00100000000000010000000000001010"), Some((10, 0x2001000A)));
    assert_eq!(
        parse_line("0xff 11111111111111111111111111111111"),
        Some((255, u32::MAX))
    );
}

#[test]
fn white_space_around_the_words_does_not_matter() {
    assert_eq!(parse_line("  0x02\t\t110  "), Some((2, 6)));
    assert_eq!(parse_line("0x02 110\r"), Some((2, 6)));
    assert_eq!(parse_line("\u{3000}0x02\u{00A0}110\u{2028}"), Some((2, 6)));
    assert_eq!(parse_line("0x02\n110"), Some((2, 6)));
}

#[test]
fn hex_marks_and_plus_signs_are_left_out() {
    assert_eq!(parse_line("0x0x1F 1"), Some((31, 1)));
    assert_eq!(parse_line("+1F +1"), Some((31, 1)));
    assert_eq!(parse_line("0x+1F 1"), Some((31, 1)));
    assert_eq!(parse_line("0x0 1"), Some((0, 1)));
    assert_eq!(parse_line("0x00x 1"), None);
    assert_eq!(parse_line("+0x1F 1"), None);
    assert_eq!(parse_line("0X1F 1"), None);
    assert_eq!(parse_line("0x 1"), None);
    assert_eq!(parse_line("+ 1"), None);
    assert_eq!(parse_line("1 +"), None);
    assert_eq!(parse_line("++1 1"), None);
    assert_eq!(parse_line("1 0x1"), None);
}

#[test]
fn leading_zeros_do_not_overflow() {
    assert_eq!(parse_line("0x000000001F 0000000000000000000000000000000000000101"), Some((31, 5)));
}

#[test]
fn lines_of_another_shape_hold_nothing() {
    assert_eq!(parse_line(""), None);
    assert_eq!(parse_line("   "), None);
    assert_eq!(parse_line("0x00"), None);
    assert_eq!(parse_line("0x00 1 1"), None);
    assert_eq!(parse_line("0xGG 1"), None);
    assert_eq!(parse_line("0x00 2"), None);
    assert_eq!(parse_line("0x00 1_0"), None);
    assert_eq!(parse_line("-1 1"), None);
    assert_eq!(parse_line("1 -1"), None);
    assert_eq!(parse_line("0x100 1"), None);
    assert_eq!(parse_line("0x00 111111111111111111111111111111111"), None);
    assert_eq!(parse_line("0x00 100000000000000000000000000000000"), None);
    assert_eq!(parse_line("0x0\u{0661} 1"), None);
    assert_eq!(parse_line("# a comment"), None);
}

#[test]
fn loading_a_line_stores_its_entry_under_the_tag() {
    let mut memory = Memory::new();
    assert!(memory.load_line("0x03 111", WordKind::Data));
    assert!(memory.load_line("0x04 1", WordKind::Instruction));
    assert!(!memory.load_line("garbage", WordKind::Data));
    assert!(!memory.load_line("0x05 3", WordKind::Data));
    assert_eq!(memory.data.len(), 2);
    assert_eq!(memory.data.get(&3), Some(&7));
    assert_eq!(memory.kinds.get(&3), Some(&WordKind::Data));
    assert_eq!(memory.data.get(&4), Some(&1));
    assert_eq!(memory.kinds.get(&4), Some(&WordKind::Instruction));
}

#[test]
fn a_later_line_overwrites_an_earlier_one() {
    let mut memory = Memory::new();
    memory.load_line("0x03 111", WordKind::Data);
    memory.load_line("0x03 10", WordKind::Instruction);
    assert_eq!(memory.data.len(), 1);
    assert_eq!(memory.data.get(&3), Some(&2));
    assert_eq!(memory.kinds.get(&3), Some(&WordKind::Instruction));
}

#[test]
fn store_puts_word_and_tag() {
    let mut memory = Memory::new();
    memory.store(200, 0xCAFE, WordKind::Data);
    memory.store(200, 0xBEEF, WordKind::Instruction);
    memory.store(201, 1, WordKind::Data);
    assert_eq!(memory.data.get(&200), Some(&0xBEEF));
    assert_eq!(memory.kinds.get(&200), Some(&WordKind::Instruction));
    assert_eq!(memory.data.len(), 2);
}

#[test]
fn fields_are_put_at_their_places() {
    assert_eq!(build_r_type(0, 1, 2, 3, 0, 0x20), 0x0022_1820);
    assert_eq!(build_r_type(0x3F, 0x1F, 0x1F, 0x1F, 0x1F, 0x3F), u32::MAX);
    assert_eq!(build_r_type(0, 0, 0, 0, 1, 0), 0x40);
    assert_eq!(build_i_type(0x08, 0, 1, 10), 0x2001_000A);
    assert_eq!(build_i_type(0x23, 0, 2, 0), 0x8C02_0000);
    assert_eq!(build_i_type(0x2B, 0, 1, 0xFFFF), 0xAC01_FFFF);
    // Fields that do not fit run over into their neighbours.
    assert_eq!(build_r_type(0, 32, 0, 0, 0, 0), 1 << 26);
    assert_eq!(build_r_type(64, 0, 0, 0, 0, 0), 0);
    assert_eq!(build_i_type(0, 0, 32, 0), 1 << 21);
}

#[test]
fn built_words_decode_to_their_fields() {
    for (opcode, rs, rt, rd, shamt, funct) in
        [(0u8, 1u8, 2u8, 3u8, 4u8, 5u8), (63, 31, 30, 29, 28, 62), (35, 0, 17, 0, 9, 0)]
    {
        let word = build_r_type(opcode, rs, rt, rd, shamt, funct);
        assert_eq!(CPU::opcode(word), opcode);
        assert_eq!(CPU::rs(word), rs);
        assert_eq!(CPU::rt(word), rt);
        assert_eq!(CPU::rd(word), rd);
        assert_eq!(CPU::shamt(word), shamt);
        assert_eq!(CPU::funct(word), funct);
    }
    let word = build_i_type(43, 7, 8, 0xABCD);
    assert_eq!(CPU::opcode(word), 43);
    assert_eq!(CPU::rs(word), 7);
    assert_eq!(CPU::rt(word), 8);
    assert_eq!(CPU::imm(word), 0xABCD);
}

#[test]
fn registers_are_named_by_r_and_a_number() {
    assert_eq!(parse_register("r0"), Some(0));
    assert_eq!(parse_register("r7"), Some(7));
    assert_eq!(parse_register("r31"), Some(31));
    assert_eq!(parse_register("r031"), Some(31));
    assert_eq!(parse_register("r+5"), Some(5));
    assert_eq!(parse_register("r32"), None);
    assert_eq!(parse_register("r255"), None);
    assert_eq!(parse_register("r256"), None);
    assert_eq!(parse_register("r"), None);
    assert_eq!(parse_register("R1"), None);
    assert_eq!(parse_register("x1"), None);
    assert_eq!(parse_register("r-1"), None);
    assert_eq!(parse_register("r1 "), None);
    assert_eq!(parse_register(" r1"), None);
    assert_eq!(parse_register("r1f"), None);
    assert_eq!(parse_register(""), None);
}

#[test]
fn an_addition_line_becomes_an_add() {
    assert_eq!(translate_line_to_instruction("r3 = r1 + r2"), Some(0x0022_1820));
    assert_eq!(translate_line_to_instruction("r3=r1+r2"), Some(0x0022_1820));
    assert_eq!(translate_line_to_instruction("  r3  =  r1  +  r2  "), Some(0x0022_1820));
    assert_eq!(translate_line_to_instruction("r3 + r1 = r2"), Some(0x0022_1820));
    assert_eq!(
        translate_line_to_instruction("r31 = r0 + r31"),
        Some(build_r_type(0, 0, 31, 31, 0, 0x20))
    );
    assert_eq!(translate_line_to_instruction("r3 = r1 + r32"), None);
    assert_eq!(translate_line_to_instruction("r3 = r1 + r2 + r4"), None);
    assert_eq!(translate_line_to_instruction("r3 = r1 + "), None);
    assert_eq!(translate_line_to_instruction("r3 = r1"), None);
    assert_eq!(translate_line_to_instruction("r3 + r1"), None);
    assert_eq!(translate_line_to_instruction("r3 = r1 + r2 # sum"), None);
    assert_eq!(translate_line_to_instruction("r3 = 1 + r2"), None);
}

#[test]
fn a_load_line_becomes_a_load() {
    assert_eq!(translate_line_to_instruction("load r1, 32"), Some(0x8C01_0020));
    assert_eq!(translate_line_to_instruction("load r1,32"), Some(0x8C01_0020));
    assert_eq!(translate_line_to_instruction("loadr1,32"), Some(0x8C01_0020));
    assert_eq!(translate_line_to_instruction("load r2, 65535"), Some(0x8C02_FFFF));
    assert_eq!(translate_line_to_instruction("load r2, +7"), Some(0x8C02_0007));
    assert_eq!(translate_line_to_instruction("load r2, 65536"), None);
    assert_eq!(translate_line_to_instruction("load r2, -1"), None);
    assert_eq!(translate_line_to_instruction("load r2"), None);
    assert_eq!(translate_line_to_instruction("load r2, 1, 2"), None);
    assert_eq!(translate_line_to_instruction("load r2, "), None);
    assert_eq!(translate_line_to_instruction("load r32, 1"), None);
    assert_eq!(translate_line_to_instruction(" load r1, 32"), None);
    assert_eq!(translate_line_to_instruction("Load r1, 32"), None);
    assert_eq!(translate_line_to_instruction("load r1, 10  # Load value 10 into r1"), None);
    assert_eq!(translate_line_to_instruction("store r1, 32"), None);
    assert_eq!(translate_line_to_instruction(""), None);
    // A line with `=` and `+` is an addition, also where it starts with `load`.
    assert_eq!(translate_line_to_instruction("load r1, 1 = +"), None);
}

#[test]
fn a_program_is_compiled_line_by_line() {
    let code = "# Basic addition\nload r1, 10\n\n  load r2, 20  \nnonsense\nr3 = r1 + r2\n";
    assert_eq!(compile_code(code), vec![0x8C01_000A, 0x8C02_0014, 0x0022_1820]);
    assert_eq!(compile_code("load r1, 10\r\nr3 = r1 + r2"), vec![0x8C01_000A, 0x0022_1820]);
    assert_eq!(compile_code(""), Vec::<u32>::new());
    assert_eq!(compile_code("\n\n\n"), Vec::<u32>::new());
    assert_eq!(compile_code("   # load r1, 10"), Vec::<u32>::new());
    assert_eq!(compile_code("load r1, 10  # Load value 10 into r1\n"), Vec::<u32>::new());
    assert_eq!(compile_code("r3 = r1 + r2"), vec![0x0022_1820]);
}

#[test]
fn compiled_instructions_go_to_the_first_addresses() {
    let mut memory = Memory::new();
    memory.store(1, 77, WordKind::Data);
    memory.store(90, 88, WordKind::Data);
    memory.load_compiled_instructions(&vec![10, 11, 12]);
    assert_eq!(memory.data.len(), 4);
    for address in 0..3u8 {
        assert_eq!(memory.data.get(&address), Some(&(10 + address as u32)));
        assert_eq!(memory.kinds.get(&address), Some(&WordKind::Instruction));
    }
    assert_eq!(memory.data.get(&90), Some(&88));
    assert_eq!(memory.kinds.get(&90), Some(&WordKind::Data));
}

#[test]
fn a_long_program_is_cut_off() {
    let words: Vec<u32> = (0..100u32).collect();
    let mut memory = Memory::new();
    memory.load_compiled_instructions(&words);
    assert_eq!(PROGRAM_LIMIT, 64);
    assert_eq!(memory.data.len(), 64);
    assert_eq!(memory.data.get(&63), Some(&63));
    assert_eq!(memory.data.get(&64), None);
    assert_eq!(memory.kinds.len(), 64);
    let mut empty = Memory::new();
    empty.load_compiled_instructions(&Vec::new());
    assert!(empty.data.is_empty());
}

#[test]
fn a_compiled_program_runs() {
    let mut memory = Memory::new();
    memory.store(100, 7, WordKind::Data);
    memory.store(101, 8, WordKind::Data);
    memory.load_compiled_instructions(&compile_code("load r1, 100\nload r2, 101\nr3 = r1 + r2"));
    let mut cache = cpu_simulator::cache::Cache::new(4, 2);
    let mut cpu = CPU::new();
    while !cpu.halted {
        cpu.step(&mut memory, &mut cache);
    }
    assert_eq!(cpu.registers[3], 15);
    assert_eq!(cpu.cycle, 3);
}
