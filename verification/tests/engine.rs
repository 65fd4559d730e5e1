use cpu_simulator::cache::Cache;
use cpu_simulator::cpu::{Operation, Outcome, TraceEvent, CPU};
use cpu_simulator::memory::{Memory, WordKind, MEMORY_ACCESS_COST};

const ADD: u32 = 0x20;
const SUB: u32 = 0x22;
const SLT: u32 = 0x2A;
const ADDI: u32 = 0x08;
const BEQ: u32 = 0x04;
const LW: u32 = 0x23;
const SW: u32 = 0x2B;

fn r_type(rs: u32, rt: u32, rd: u32, funct: u32) -> u32 {
    (rs << 21) | (rt << 16) | (rd << 11) | funct
}

fn i_type(opcode: u32, rs: u32, rt: u32, imm: i16) -> u32 {
    (opcode << 26) | (rs << 21) | (rt << 16) | (imm as u16) as u32
}

fn program(words: &[u32]) -> Memory {
    let mut memory = Memory::new();
    for (address, word) in words.iter().enumerate() {
        memory.store(address as u8, *word, WordKind::Instruction);
    }
    memory
}

/// Runs one instruction with the given registers set beforehand.
fn run_one(word: u32, registers: &[(usize, u32)]) -> (CPU, Memory, Cache, TraceEvent) {
    let mut memory = program(&[word]);
    let mut cache = Cache::new(4, 2);
    let mut cpu = CPU::new();
    for (index, value) in registers {
        cpu.registers[*index] = *value;
    }
    let event = cpu.step(&mut memory, &mut cache).unwrap();
    (cpu, memory, cache, event)
}

#[test]
fn new_engine_starts_at_zero() {
    let cpu = CPU::new();
    assert_eq!(cpu.registers, [0u32; 32]);
    assert_eq!(cpu.pc, 0);
    assert_eq!(cpu.cycle, 0);
    assert!(!cpu.halted);
    let memory = Memory::new();
    assert!(memory.data.is_empty());
    assert!(memory.kinds.is_empty());
    assert_eq!(MEMORY_ACCESS_COST, 10);
}

#[test]
fn fields_are_cut_out_of_the_word() {
    let word: u32 = 0b101011_10001_01010_11111_00110_100101;
    assert_eq!(CPU::opcode(word), 0b101011);
    assert_eq!(CPU::rs(word), 0b10001);
    assert_eq!(CPU::rt(word), 0b01010);
    assert_eq!(CPU::rd(word), 0b11111);
    assert_eq!(CPU::shamt(word), 0b00110);
    assert_eq!(CPU::funct(word), 0b100101);
    assert_eq!(CPU::imm(word), 0b11111_00110_100101);
    assert_eq!(CPU::opcode(u32::MAX), 63);
    assert_eq!(CPU::rs(u32::MAX), 31);
    assert_eq!(CPU::imm(u32::MAX), 0xFFFF);
    assert_eq!(CPU::opcode(0), 0);
    assert_eq!(CPU::funct(0), 0);
}

#[test]
fn operations_are_told_apart() {
    assert_eq!(CPU::operation(r_type(1, 2, 3, ADD)), Operation::Add);
    assert_eq!(CPU::operation(r_type(1, 2, 3, SUB)), Operation::Sub);
    assert_eq!(CPU::operation(r_type(1, 2, 3, SLT)), Operation::Slt);
    assert_eq!(CPU::operation(i_type(ADDI, 1, 2, 3)), Operation::Addi);
    assert_eq!(CPU::operation(i_type(BEQ, 1, 2, 3)), Operation::Beq);
    assert_eq!(CPU::operation(i_type(LW, 1, 2, 3)), Operation::Lw);
    assert_eq!(CPU::operation(i_type(SW, 1, 2, 3)), Operation::Sw);
    assert_eq!(CPU::operation(0), Operation::UnknownFunct(0));
    assert_eq!(CPU::operation(r_type(1, 2, 3, 0x21)), Operation::UnknownFunct(0x21));
    assert_eq!(CPU::operation(i_type(0x3F, 1, 2, 3)), Operation::UnknownOpcode(0x3F));
    assert_eq!(CPU::operation(i_type(0x02, 0, 0, 0)), Operation::UnknownOpcode(0x02));
}

#[test]
fn three_instructions_add_up_and_halt() {
    let mut memory = program(&[
        i_type(ADDI, 0, 1, 10),
        i_type(ADDI, 0, 2, 20),
        r_type(1, 2, 3, ADD),
    ]);
    let mut cache = Cache::new(4, 2);
    let mut cpu = CPU::new();
    for _ in 0..3 {
        assert!(!cpu.halted);
        assert!(cpu.can_step(&cache));
        cpu.step(&mut memory, &mut cache);
    }
    assert_eq!(cpu.registers[1], 10);
    assert_eq!(cpu.registers[2], 20);
    assert_eq!(cpu.registers[3], 30);
    assert_eq!(cpu.cycle, 3);
    assert_eq!(cpu.pc, 3);
    assert!(cpu.halted);
}

#[test]
fn a_halted_engine_does_nothing() {
    let mut memory = program(&[i_type(ADDI, 0, 1, 10)]);
    let mut cache = Cache::new(4, 2);
    let mut cpu = CPU::new();
    cpu.halted = true;
    assert_eq!(cpu.step(&mut memory, &mut cache), None);
    assert_eq!(cpu.registers, [0u32; 32]);
    assert_eq!((cpu.pc, cpu.cycle, cpu.halted), (0, 0, true));
    assert_eq!(cache.access_counter, 0);
}

#[test]
fn add_wraps_around() {
    let (cpu, _, _, event) = run_one(r_type(1, 2, 3, ADD), &[(1, 0xFFFF_FFFF), (2, 2)]);
    assert_eq!(cpu.registers[3], 1);
    assert_eq!(event.operation, Operation::Add);
    assert_eq!(event.outcome, Outcome::Computed { register: 3, value: 1 });
    let (cpu, _, _, _) = run_one(r_type(1, 2, 3, ADD), &[(1, 0x8000_0000), (2, 0x8000_0000)]);
    assert_eq!(cpu.registers[3], 0);
    let (cpu, _, _, _) = run_one(r_type(1, 2, 3, ADD), &[(1, 7), (2, 8)]);
    assert_eq!(cpu.registers[3], 15);
    assert_eq!((cpu.pc, cpu.cycle), (1, 1));
}

#[test]
fn sub_wraps_to_twos_complement() {
    let (cpu, _, _, event) = run_one(r_type(1, 2, 3, SUB), &[(1, 3), (2, 5)]);
    assert_eq!(cpu.registers[3], 0xFFFF_FFFE);
    assert_eq!(event.outcome, Outcome::Computed { register: 3, value: 0xFFFF_FFFE });
    let (cpu, _, _, _) = run_one(r_type(1, 2, 3, SUB), &[(1, 0), (2, 1)]);
    assert_eq!(cpu.registers[3], 0xFFFF_FFFF);
    let (cpu, _, _, _) = run_one(r_type(1, 2, 3, SUB), &[(1, 9), (2, 4)]);
    assert_eq!(cpu.registers[3], 5);
}

#[test]
fn slt_compares_signed_numbers() {
    let minus_one = 0xFFFF_FFFF;
    let (cpu, _, _, _) = run_one(r_type(1, 2, 3, SLT), &[(1, minus_one), (2, 1), (3, 9)]);
    assert_eq!(cpu.registers[3], 1);
    let (cpu, _, _, _) = run_one(r_type(1, 2, 3, SLT), &[(1, 1), (2, minus_one), (3, 9)]);
    assert_eq!(cpu.registers[3], 0);
    let (cpu, _, _, _) = run_one(r_type(1, 2, 3, SLT), &[(1, 4), (2, 4), (3, 9)]);
    assert_eq!(cpu.registers[3], 0);
    let (cpu, _, _, _) =
        run_one(r_type(1, 2, 3, SLT), &[(1, 0x8000_0000), (2, 0x7FFF_FFFF), (3, 9)]);
    assert_eq!(cpu.registers[3], 1);
}

#[test]
fn addi_adds_a_signed_immediate() {
    let (cpu, _, _, event) = run_one(i_type(ADDI, 1, 2, -3), &[(1, 10)]);
    assert_eq!(cpu.registers[2], 7);
    assert_eq!(event.outcome, Outcome::Computed { register: 2, value: 7 });
    let (cpu, _, _, _) = run_one(i_type(ADDI, 1, 2, -3), &[(1, 1)]);
    assert_eq!(cpu.registers[2], 0xFFFF_FFFE);
    let (cpu, _, _, _) = run_one(i_type(ADDI, 1, 2, 0x7FFF), &[(1, 0xFFFF_FFFF)]);
    assert_eq!(cpu.registers[2], 0x7FFE);
    let (cpu, _, _, _) = run_one(i_type(ADDI, 1, 2, i16::MIN), &[(1, 0)]);
    assert_eq!(cpu.registers[2], 0xFFFF_8000);
}

#[test]
fn register_zero_is_an_ordinary_register() {
    let (cpu, _, _, _) = run_one(i_type(ADDI, 0, 0, 5), &[]);
    assert_eq!(cpu.registers[0], 5);
    let (cpu, _, _, _) = run_one(r_type(0, 0, 0, ADD), &[(0, 21)]);
    assert_eq!(cpu.registers[0], 42);
}

fn branch_from(pc: u8, imm: i16, left: u32, right: u32) -> (CPU, TraceEvent) {
    let mut memory = Memory::new();
    memory.store(pc, i_type(BEQ, 1, 2, imm), WordKind::Instruction);
    let mut cache = Cache::new(4, 2);
    let mut cpu = CPU::new();
    cpu.pc = pc;
    cpu.registers[1] = left;
    cpu.registers[2] = right;
    let event = cpu.step(&mut memory, &mut cache).unwrap();
    (cpu, event)
}

#[test]
fn beq_branches_forward_when_operands_are_equal() {
    let (cpu, event) = branch_from(10, 5, 7, 7);
    assert_eq!(cpu.pc, 16);
    assert_eq!(event.outcome, Outcome::Branched { taken: true });
    assert_eq!(event.pc, 10);
    let (cpu, _) = branch_from(10, 0, 7, 7);
    assert_eq!(cpu.pc, 11);
    let (cpu, _) = branch_from(250, 10, 0, 0);
    assert_eq!(cpu.pc, 5);
    let (cpu, _) = branch_from(3, 0x7FFF, 0, 0);
    assert_eq!(cpu.pc, 3);
    let (cpu, _) = branch_from(3, 0x0100, 0, 0);
    assert_eq!(cpu.pc, 4);
}

#[test]
fn beq_branches_backward_when_operands_are_equal() {
    let (cpu, event) = branch_from(10, -5, 7, 7);
    assert_eq!(cpu.pc, 6);
    assert_eq!(event.outcome, Outcome::Branched { taken: true });
    let (cpu, _) = branch_from(10, -1, 7, 7);
    assert_eq!(cpu.pc, 10);
    let (cpu, _) = branch_from(2, -5, 0, 0);
    assert_eq!(cpu.pc, 254);
    let (cpu, _) = branch_from(255, -1, 0, 0);
    assert_eq!(cpu.pc, 255);
    let (cpu, _) = branch_from(7, i16::MIN, 0, 0);
    assert_eq!(cpu.pc, 8);
    let (cpu, _) = branch_from(7, -256, 0, 0);
    assert_eq!(cpu.pc, 8);
}

#[test]
fn beq_falls_through_when_operands_differ() {
    for imm in [5i16, 0, -5, i16::MIN, i16::MAX] {
        let (cpu, event) = branch_from(10, imm, 7, 8);
        assert_eq!(cpu.pc, 11);
        assert_eq!(event.outcome, Outcome::Branched { taken: false });
        assert_eq!(cpu.cycle, 1);
    }
    let (cpu, _) = branch_from(255, 5, 1, 2);
    assert_eq!(cpu.pc, 0);
}

#[test]
fn load_of_an_untouched_address_yields_zero_and_creates_it() {
    let (cpu, memory, cache, event) = run_one(i_type(LW, 1, 2, 8), &[(1, 32), (2, 99)]);
    assert_eq!(cpu.registers[2], 0);
    assert_eq!(memory.data.get(&40), Some(&0));
    assert_eq!(memory.kinds.get(&40), None);
    assert_eq!((cache.hits, cache.misses), (0, 1));
    assert_eq!(cache.access_counter, 2);
    let block = cache.sets[&0].blocks[0];
    assert_eq!((block.tag, block.data, block.valid), (10, 0, true));
    assert_eq!(
        event.outcome,
        Outcome::Loaded { register: 2, address: 40, value: 0, hit: false, created: true }
    );
    assert_eq!(event.operation, Operation::Lw);
}

#[test]
fn load_address_is_cut_down_to_eight_bits() {
    let mut memory = program(&[i_type(LW, 1, 2, 2), i_type(LW, 1, 3, -2)]);
    memory.store(0x11, 111, WordKind::Data);
    memory.store(0x0D, 222, WordKind::Data);
    let mut cache = Cache::new(4, 2);
    let mut cpu = CPU::new();
    cpu.registers[1] = 0xABCD_EF0F;
    cpu.step(&mut memory, &mut cache);
    cpu.step(&mut memory, &mut cache);
    assert_eq!(cpu.registers[2], 111);
    assert_eq!(cpu.registers[3], 222);

    let (_, _, _, event) = run_one(i_type(LW, 1, 2, 2), &[(1, 0xFFFF_FFFF)]);
    assert_eq!(
        event.outcome,
        Outcome::Loaded { register: 2, address: 1, value: 0, hit: false, created: true }
    );
}

#[test]
fn two_loads_of_an_uncached_word_miss_then_hit() {
    let mut memory = program(&[i_type(LW, 0, 2, 40), i_type(LW, 0, 3, 40)]);
    memory.store(40, 77, WordKind::Data);
    let mut cache = Cache::new(4, 2);
    let mut cpu = CPU::new();

    let first = cpu.step(&mut memory, &mut cache).unwrap();
    assert_eq!(
        first.outcome,
        Outcome::Loaded { register: 2, address: 40, value: 77, hit: false, created: false }
    );
    assert_eq!((cache.hits, cache.misses), (0, 1));

    let second = cpu.step(&mut memory, &mut cache).unwrap();
    assert_eq!(
        second.outcome,
        Outcome::Loaded { register: 3, address: 40, value: 77, hit: true, created: false }
    );
    assert_eq!((cache.hits, cache.misses), (1, 1));
    assert_eq!(cpu.registers[2], 77);
    assert_eq!(cpu.registers[3], 77);
    assert_eq!(memory.kinds.get(&40), Some(&WordKind::Data));

    let rate = cache.get_hit_rate();
    assert_eq!((rate.hits, rate.accesses), (1, 2));
    assert_eq!(rate.hits as f32 / rate.accesses as f32, 0.5);
}

#[test]
fn store_writes_through_so_that_loads_hit() {
    let mut memory = program(&[
        i_type(SW, 0, 1, 0),
        i_type(LW, 0, 2, 0),
        i_type(LW, 0, 3, 0),
    ]);
    let mut cache = Cache::new(4, 2);
    let mut cpu = CPU::new();
    cpu.registers[1] = 55;

    let stored = cpu.step(&mut memory, &mut cache).unwrap();
    assert_eq!(stored.outcome, Outcome::Stored { address: 0, value: 55 });
    assert_eq!(stored.instruction, i_type(SW, 0, 1, 0));
    assert_eq!(memory.data.get(&0), Some(&55));
    assert_eq!(memory.kinds.get(&0), Some(&WordKind::Data));
    assert_eq!((cache.hits, cache.misses), (0, 0));

    let first = cpu.step(&mut memory, &mut cache).unwrap();
    assert_eq!(
        first.outcome,
        Outcome::Loaded { register: 2, address: 0, value: 55, hit: true, created: false }
    );
    let second = cpu.step(&mut memory, &mut cache).unwrap();
    assert_eq!(
        second.outcome,
        Outcome::Loaded { register: 3, address: 0, value: 55, hit: true, created: false }
    );
    assert_eq!((cpu.registers[2], cpu.registers[3]), (55, 55));
    assert_eq!((cache.hits, cache.misses), (2, 0));
    assert_eq!((cpu.cycle, cpu.pc, cpu.halted), (3, 3, true));
    let rate = cache.get_hit_rate();
    assert_eq!((rate.hits, rate.accesses), (2, 2));
}

#[test]
fn a_load_that_hits_takes_the_word_from_the_cache() {
    let mut memory = program(&[i_type(LW, 0, 2, 40)]);
    memory.store(40, 1, WordKind::Data);
    let mut cache = Cache::new(4, 2);
    cache.write(40, 2);
    let mut cpu = CPU::new();
    cpu.step(&mut memory, &mut cache);
    assert_eq!(cpu.registers[2], 2);
    assert_eq!(memory.data.get(&40), Some(&1));
}

#[test]
fn unsupported_words_only_move_the_program_counter() {
    for word in [r_type(1, 2, 3, 0x21), i_type(0x3F, 1, 2, 3), 0u32, u32::MAX] {
        let (cpu, memory, cache, event) = run_one(word, &[(1, 5), (2, 6), (3, 7)]);
        assert_eq!((cpu.registers[1], cpu.registers[2], cpu.registers[3]), (5, 6, 7));
        assert_eq!((cpu.pc, cpu.cycle, cpu.halted), (1, 1, true));
        assert_eq!(memory.data.len(), 1);
        assert_eq!(cache.access_counter, 0);
        assert_eq!(event.outcome, Outcome::Unsupported);
        assert_eq!(event.instruction, word);
    }
}

#[test]
fn fetch_of_an_unoccupied_address_runs_the_zero_word() {
    let mut memory = Memory::new();
    let mut cache = Cache::new(4, 2);
    let mut cpu = CPU::new();
    let event = cpu.step(&mut memory, &mut cache).unwrap();
    assert_eq!(event.instruction, 0);
    assert_eq!(event.operation, Operation::UnknownFunct(0));
    assert_eq!(event.outcome, Outcome::Unsupported);
    assert_eq!((cpu.pc, cpu.cycle, cpu.halted), (1, 1, true));
    assert!(memory.data.is_empty());
}

#[test]
fn engine_keeps_running_while_the_next_address_is_occupied() {
    let mut memory = program(&[i_type(ADDI, 0, 1, 1)]);
    memory.store(1, 1234, WordKind::Data);
    let mut cache = Cache::new(4, 2);
    let mut cpu = CPU::new();
    cpu.step(&mut memory, &mut cache);
    assert!(!cpu.halted);
    cpu.step(&mut memory, &mut cache);
    assert!(cpu.halted);
    assert_eq!((cpu.pc, cpu.cycle), (2, 2));
}

#[test]
fn program_counter_wraps_around_at_the_end_of_memory() {
    let mut memory = Memory::new();
    memory.store(255, i_type(ADDI, 0, 1, 1), WordKind::Instruction);
    memory.store(0, i_type(ADDI, 1, 1, 1), WordKind::Instruction);
    let mut cache = Cache::new(4, 2);
    let mut cpu = CPU::new();
    cpu.pc = 255;
    cpu.step(&mut memory, &mut cache);
    assert_eq!((cpu.pc, cpu.halted), (0, false));
    cpu.step(&mut memory, &mut cache);
    assert_eq!((cpu.pc, cpu.halted, cpu.registers[1]), (1, true, 2));
}

#[test]
fn a_store_can_overwrite_the_program() {
    let mut memory = program(&[i_type(SW, 0, 1, 1), i_type(ADDI, 0, 2, 9)]);
    let mut cache = Cache::new(4, 2);
    let mut cpu = CPU::new();
    cpu.registers[1] = i_type(ADDI, 0, 2, 4);
    cpu.step(&mut memory, &mut cache);
    cpu.step(&mut memory, &mut cache);
    assert_eq!(cpu.registers[2], 4);
    assert_eq!(memory.kinds.get(&1), Some(&WordKind::Data));
}

#[test]
fn a_loop_of_branches_runs_to_its_end() {
    // r1 counts down from 3; r2 sums 5 per round.
    let mut memory = program(&[
        i_type(ADDI, 0, 1, 3),
        i_type(BEQ, 1, 0, 3),
        i_type(ADDI, 2, 2, 5),
        i_type(ADDI, 1, 1, -1),
        i_type(BEQ, 0, 0, -4),
        i_type(ADDI, 2, 2, 100),
    ]);
    let mut cache = Cache::new(4, 2);
    let mut cpu = CPU::new();
    let mut steps = 0;
    while !cpu.halted {
        assert!(cpu.can_step(&cache));
        cpu.step(&mut memory, &mut cache);
        steps += 1;
        assert!(steps < 100);
    }
    assert_eq!(cpu.registers[1], 0);
    assert_eq!(cpu.registers[2], 115);
    assert_eq!(cpu.pc, 6);
    assert_eq!(cpu.cycle, steps);
}

#[test]
fn step_is_refused_when_a_counter_is_full() {
    let cache = Cache::new(4, 2);
    let mut cpu = CPU::new();
    assert!(cpu.can_step(&cache));
    cpu.cycle = u32::MAX;
    assert!(!cpu.can_step(&cache));
    cpu.halted = true;
    assert!(cpu.can_step(&cache));

    let cpu = CPU::new();
    let mut full = Cache::new(4, 2);
    full.access_counter = u64::MAX - 1;
    assert!(!cpu.can_step(&full));
    full.access_counter = u64::MAX - 2;
    assert!(cpu.can_step(&full));
    full.hits = u32::MAX;
    assert!(!cpu.can_step(&full));
    full.hits = 0;
    full.misses = u32::MAX;
    assert!(!cpu.can_step(&full));

    let mut broken = Cache::new(4, 2);
    broken.blocks_per_set = 0;
    assert!(!CPU::new().can_step(&broken));
}
