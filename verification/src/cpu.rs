//! The execution engine: instruction decoding and the state transition over
//! registers, program counter, memory and cache.
//!
//! An instruction word is 32 bits wide: opcode in bits 31-26, `rs` in bits
//! 25-21, `rt` in bits 20-16, `rd` in bits 15-11, `shamt` in bits 10-6 and
//! `funct` in bits 5-0; immediate forms use the low 16 bits as `imm`.

use crate::cache::{Cache, CacheModel};
use crate::memory::{Memory, MemoryModel, WordKind};
use vstd::prelude::*;

verus! {

/// Opcode of the register-form instructions, which `funct` tells apart.
pub const OPCODE_RTYPE: u8 = 0x00;

/// Opcode of BEQ.
pub const OPCODE_BEQ: u8 = 0x04;

/// Opcode of ADDI.
pub const OPCODE_ADDI: u8 = 0x08;

/// Opcode of LW.
pub const OPCODE_LW: u8 = 0x23;

/// Opcode of SW.
pub const OPCODE_SW: u8 = 0x2B;

/// `funct` of ADD.
pub const FUNCT_ADD: u8 = 0x20;

/// `funct` of SUB.
pub const FUNCT_SUB: u8 = 0x22;

/// `funct` of SLT.
pub const FUNCT_SLT: u8 = 0x2A;

/// Bits 31-26 of `word`.
pub open spec fn opcode_of(word: u32) -> u8 {
    (word / 0x400_0000) as u8
}

/// Bits 25-21 of `word`.
pub open spec fn rs_of(word: u32) -> u8 {
    (word / 0x20_0000 % 32) as u8
}

/// Bits 20-16 of `word`.
pub open spec fn rt_of(word: u32) -> u8 {
    (word / 0x1_0000 % 32) as u8
}

/// Bits 15-11 of `word`.
pub open spec fn rd_of(word: u32) -> u8 {
    (word / 0x800 % 32) as u8
}

/// Bits 10-6 of `word`.
pub open spec fn shamt_of(word: u32) -> u8 {
    (word / 0x40 % 32) as u8
}

/// Bits 5-0 of `word`.
pub open spec fn funct_of(word: u32) -> u8 {
    (word % 64) as u8
}

/// Bits 15-0 of `word`.
pub open spec fn imm_of(word: u32) -> u16 {
    (word % 0x1_0000) as u16
}

/// A 16-bit immediate read as a signed number.
pub open spec fn sign_extend16(imm: u16) -> int {
    if imm < 0x8000 {
        imm as int
    } else {
        imm - 0x1_0000
    }
}

/// A register value read as a signed 32-bit number.
pub open spec fn as_signed(value: u32) -> int {
    if value < 0x8000_0000 {
        value as int
    } else {
        value - 0x1_0000_0000
    }
}

/// `value` modulo 2^32.
pub open spec fn wrap32(value: int) -> u32 {
    (value % 0x1_0000_0000) as u32
}

/// `value` modulo 256.
pub open spec fn wrap8(value: int) -> u8 {
    (value % 256) as u8
}

/// What an instruction word asks for.
#[derive(Clone, Copy, Debug, PartialEq, Eq, Structural)]
pub enum Operation {
    /// `rd = rs + rt`
    Add,
    /// `rd = rs - rt`
    Sub,
    /// `rd = 1` if `rs < rt` as signed numbers, else `rd = 0`
    Slt,
    /// `rt = rs + imm`
    Addi,
    /// branch by `imm` if `rs == rt`
    Beq,
    /// `rt = MEM[rs + imm]`
    Lw,
    /// `MEM[rs + imm] = rt`
    Sw,
    /// Opcode 0 with a `funct` that names no instruction; carries the `funct`.
    UnknownFunct(u8),
    /// An opcode that names no instruction; carries the opcode.
    UnknownOpcode(u8),
}

/// The operation that `word` encodes.
pub open spec fn operation_of(word: u32) -> Operation {
    let opcode = opcode_of(word);
    let funct = funct_of(word);
    if opcode == OPCODE_RTYPE {
        if funct == FUNCT_ADD {
            Operation::Add
        } else if funct == FUNCT_SUB {
            Operation::Sub
        } else if funct == FUNCT_SLT {
            Operation::Slt
        } else {
            Operation::UnknownFunct(funct)
        }
    } else if opcode == OPCODE_ADDI {
        Operation::Addi
    } else if opcode == OPCODE_BEQ {
        Operation::Beq
    } else if opcode == OPCODE_LW {
        Operation::Lw
    } else if opcode == OPCODE_SW {
        Operation::Sw
    } else {
        Operation::UnknownOpcode(opcode)
    }
}

/// The address that a load or store refers to: base plus signed offset,
/// modulo 256.
pub open spec fn effective_address(base: u32, imm: u16) -> u8 {
    wrap8(base + sign_extend16(imm))
}

/// The value that an arithmetic operation computes from its operands:
/// sum and difference modulo 2^32, the signed comparison as 1 or 0, and for
/// ADDI the sum of `left` and the signed immediate modulo 2^32. Any other
/// operation computes nothing, which is 0 here.
pub open spec fn computed_value(operation: Operation, left: u32, right: u32, imm: u16) -> u32 {
    match operation {
        Operation::Add => wrap32(left + right),
        Operation::Sub => wrap32(left - right),
        Operation::Slt => if as_signed(left) < as_signed(right) {
            1
        } else {
            0
        },
        Operation::Addi => wrap32(left + sign_extend16(imm)),
        _ => 0,
    }
}

/// The word that a load from `address` yields: the cached word on a hit,
/// the word in memory on a miss, and 0 where memory has none.
pub open spec fn loaded_word(memory: MemoryModel, cache: CacheModel, address: u8) -> u32 {
    if cache.holds(address) {
        cache.word(address)
    } else {
        memory.word_or_zero(address)
    }
}

/// Memory after a load from `address`: on a miss, an unoccupied address
/// comes into being with word 0. Tags stay as they are.
pub open spec fn memory_after_load(
    memory: MemoryModel,
    cache: CacheModel,
    address: u8,
) -> MemoryModel {
    if cache.holds(address) {
        memory
    } else {
        MemoryModel { data: memory.data.insert(address, memory.word_or_zero(address)), ..memory }
    }
}

/// The cache after a load from `address`: it is read, and on a miss filled
/// with the word that was loaded.
pub open spec fn cache_after_load(
    memory: MemoryModel,
    cache: CacheModel,
    address: u8,
) -> CacheModel {
    if cache.holds(address) {
        cache.read(address)
    } else {
        cache.read(address).write(address, memory.word_or_zero(address))
    }
}

/// What a word of memory is, in the shape that a display asks for.
pub enum DecodedInstruction {
    /// An instruction, as its assembly text.
    Instruction(String),
    Immediate(u32),
    Address(u8),
    /// No word to decode.
    Absent,
}

/// What one executed instruction did.
#[derive(Clone, Copy, Debug, PartialEq, Eq, Structural)]
pub enum Outcome {
    /// ADD, SUB, SLT, ADDI: `value` was written to register `register`.
    Computed { register: u8, value: u32 },
    /// BEQ: the branch was taken or not.
    Branched { taken: bool },
    /// LW: `value` was loaded from `address` into register `register`. `hit`
    /// says whether the cache held the address; `created` says whether the
    /// address was unoccupied in memory and came into being with word 0.
    Loaded { register: u8, address: u8, value: u32, hit: bool, created: bool },
    /// SW: `value` was stored at `address`.
    Stored { address: u8, value: u32 },
    /// The instruction is outside the instruction set: only the program
    /// counter moved.
    Unsupported,
}

/// The record of one step, for whoever displays or logs the run.
#[derive(Clone, Copy, Debug, PartialEq, Eq, Structural)]
pub struct TraceEvent {
    /// Where the instruction was fetched from.
    pub pc: u8,
    /// The instruction word; 0 where the address was unoccupied.
    pub instruction: u32,
    pub operation: Operation,
    pub outcome: Outcome,
}

/// The engine: register file, program counter, cycle count and halt flag.
pub struct CPU {
    /// The 32 registers. None of them is wired to zero.
    pub registers: [u32; 32],
    /// The address of the next instruction.
    pub pc: u8,
    /// The number of instructions executed so far.
    pub cycle: u32,
    /// Set when the program counter ran off the program.
    pub halted: bool,
}

/// Mathematical view of a [`CPU`].
#[verifier::ext_equal]
pub struct CpuModel {
    /// The 32 registers. None of them is wired to zero.
    pub registers: Seq<u32>,
    pub pc: u8,
    pub cycle: nat,
    pub halted: bool,
}

impl View for CPU {
    type V = CpuModel;

    open spec fn view(&self) -> CpuModel {
        CpuModel {
            registers: self.registers@,
            pc: self.pc,
            cycle: self.cycle as nat,
            halted: self.halted,
        }
    }
}

impl CpuModel {
    /// The state in which a run starts: all registers 0, program counter 0,
    /// no cycle counted, running.
    pub open spec fn initial() -> CpuModel {
        CpuModel { registers: Seq::new(32, |i: int| 0u32), pc: 0, cycle: 0, halted: false }
    }
}

/// The whole simulated machine: engine, backing memory and cache.
#[verifier::ext_equal]
pub struct Machine {
    pub cpu: CpuModel,
    pub memory: MemoryModel,
    pub cache: CacheModel,
}

impl Machine {
    /// The invariant of the machine: 32 registers and a well-formed cache.
    pub open spec fn wf(self) -> bool {
        &&& self.cpu.registers.len() == 32
        &&& self.cache.wf()
    }

    /// The word that the next step executes: the one at the program counter,
    /// and 0 where that address is unoccupied.
    pub open spec fn fetched(self) -> u32 {
        self.memory.word_or_zero(self.cpu.pc)
    }

    /// The value of register `index`.
    pub open spec fn register(self, index: u8) -> u32 {
        self.cpu.registers[index as int]
    }

    /// The machine with `value` in register `index`.
    pub open spec fn with_register(self, index: u8, value: u32) -> Machine {
        Machine {
            cpu: CpuModel { registers: self.cpu.registers.update(index as int, value), ..self.cpu },
            ..self
        }
    }

    /// The machine with the program counter at `pc`.
    pub open spec fn with_pc(self, pc: u8) -> Machine {
        Machine { cpu: CpuModel { pc, ..self.cpu }, ..self }
    }

    /// The value that ADD, SUB, SLT or ADDI computes from `word`.
    pub open spec fn computed(self, word: u32) -> u32 {
        computed_value(
            operation_of(word),
            self.register(rs_of(word)),
            self.register(rt_of(word)),
            imm_of(word),
        )
    }

    /// Where the program counter goes when `word` is executed: to the branch
    /// target `pc + 1 + imm` if `word` is a BEQ whose operands are equal, to
    /// `pc + 1` else; both modulo 256.
    pub open spec fn next_pc(self, word: u32) -> u8 {
        if operation_of(word) == Operation::Beq && self.register(rs_of(word)) == self.register(
            rt_of(word),
        ) {
            wrap8(self.cpu.pc + 1 + sign_extend16(imm_of(word)))
        } else {
            wrap8(self.cpu.pc + 1)
        }
    }

    /// The word that a load from `address` yields; see [`loaded_word`].
    pub open spec fn loaded_word(self, address: u8) -> u32 {
        loaded_word(self.memory, self.cache, address)
    }

    /// The machine after a load from `address` into register `register`.
    pub open spec fn load(self, register: u8, address: u8) -> Machine {
        Machine {
            memory: memory_after_load(self.memory, self.cache, address),
            cache: cache_after_load(self.memory, self.cache, address),
            ..self
        }.with_register(register, self.loaded_word(address))
    }

    /// The machine after `value` was stored at `address`: the word is in
    /// memory, tagged as data, and in the cache.
    pub open spec fn store(self, address: u8, value: u32) -> Machine {
        Machine {
            memory: self.memory.store(address, value, WordKind::Data),
            cache: self.cache.write(address, value),
            ..self
        }
    }

    /// The effect of `word` on registers, memory and cache.
    pub open spec fn execute(self, word: u32) -> Machine {
        let base = self.register(rs_of(word));
        match operation_of(word) {
            Operation::Add | Operation::Sub | Operation::Slt => self.with_register(
                rd_of(word),
                self.computed(word),
            ),
            Operation::Addi => self.with_register(rt_of(word), self.computed(word)),
            Operation::Lw => self.load(rt_of(word), effective_address(base, imm_of(word))),
            Operation::Sw => self.store(
                effective_address(base, imm_of(word)),
                self.register(rt_of(word)),
            ),
            _ => self,
        }
    }

    /// What the trace says of the execution of `word`.
    pub open spec fn outcome(self, word: u32) -> Outcome {
        let base = self.register(rs_of(word));
        let address = effective_address(base, imm_of(word));
        match operation_of(word) {
            Operation::Add | Operation::Sub | Operation::Slt => Outcome::Computed {
                register: rd_of(word),
                value: self.computed(word),
            },
            Operation::Addi => Outcome::Computed {
                register: rt_of(word),
                value: self.computed(word),
            },
            Operation::Beq => Outcome::Branched {
                taken: self.register(rs_of(word)) == self.register(rt_of(word)),
            },
            Operation::Lw => Outcome::Loaded {
                register: rt_of(word),
                address,
                value: self.loaded_word(address),
                hit: self.cache.holds(address),
                created: !self.cache.holds(address) && !self.memory.data.contains_key(address),
            },
            Operation::Sw => Outcome::Stored { address, value: self.register(rt_of(word)) },
            _ => Outcome::Unsupported,
        }
    }

    /// The machine after one step. A halted machine stays as it is. A
    /// running one executes the fetched word, moves the program counter,
    /// counts the cycle, and halts if memory holds nothing at the new program
    /// counter.
    pub open spec fn step(self) -> Machine {
        if self.cpu.halted {
            self
        } else {
            let word = self.fetched();
            let done = self.execute(word).with_pc(self.next_pc(word));
            Machine {
                cpu: CpuModel {
                    cycle: self.cpu.cycle + 1,
                    halted: !done.memory.data.contains_key(done.cpu.pc),
                    ..done.cpu
                },
                ..done
            }
        }
    }

    /// The trace event of one step: none for a halted machine.
    pub open spec fn event(self) -> Option<TraceEvent> {
        if self.cpu.halted {
            None
        } else {
            let word = self.fetched();
            Some(
                TraceEvent {
                    pc: self.cpu.pc,
                    instruction: word,
                    operation: operation_of(word),
                    outcome: self.outcome(word),
                },
            )
        }
    }
}

/// The machine that `cpu`, `memory` and `cache` make up.
pub open spec fn machine(cpu: &CPU, memory: &Memory, cache: &Cache) -> Machine {
    Machine { cpu: cpu@, memory: memory@, cache: cache@ }
}

/// The immediate as a signed number.
fn signed_immediate(imm: u16) -> (offset: i32)
    ensures
        offset == sign_extend16(imm),
{
    if imm < 0x8000 {
        imm as i32
    } else {
        imm as i32 - 0x1_0000
    }
}

/// The address of a load or store.
fn address_of(base: u32, imm: u16) -> (address: u8)
    ensures
        address == effective_address(base, imm),
{
    let sum = base.wrapping_add_signed(signed_immediate(imm));
    assert(sum & 0xFF == sum % 256) by (bit_vector);
    (sum & 0xFF) as u8
}

impl CPU {
    /// An engine at the start of a run.
    pub fn new() -> (cpu: CPU)
        ensures
            cpu@ == CpuModel::initial(),
    {
        let cpu = CPU { registers: [0;32], pc: 0, cycle: 0, halted: false };
        assert(cpu@.registers =~= CpuModel::initial().registers);
        cpu
    }

    /// Bits 31-26 of `instruction`.
    pub fn opcode(instruction: u32) -> (r: u8)
        ensures
            r == opcode_of(instruction),
            r < 64,
    {
        assert((instruction >> 26) & 0x3F == instruction / 0x400_0000) by (bit_vector);
        assert(instruction / 0x400_0000 < 64) by (bit_vector);
        ((instruction >> 26) & 0x3F) as u8
    }

    /// Bits 25-21 of `instruction`: the first source register.
    pub fn rs(instruction: u32) -> (r: u8)
        ensures
            r == rs_of(instruction),
            r < 32,
    {
        assert((instruction >> 21) & 0x1F == instruction / 0x20_0000 % 32) by (bit_vector);
        ((instruction >> 21) & 0x1F) as u8
    }

    /// Bits 20-16 of `instruction`: the second source register, or the
    /// destination of an immediate form.
    pub fn rt(instruction: u32) -> (r: u8)
        ensures
            r == rt_of(instruction),
            r < 32,
    {
        assert((instruction >> 16) & 0x1F == instruction / 0x1_0000 % 32) by (bit_vector);
        ((instruction >> 16) & 0x1F) as u8
    }

    /// Bits 15-11 of `instruction`: the destination of a register form.
    pub fn rd(instruction: u32) -> (r: u8)
        ensures
            r == rd_of(instruction),
            r < 32,
    {
        assert((instruction >> 11) & 0x1F == instruction / 0x800 % 32) by (bit_vector);
        ((instruction >> 11) & 0x1F) as u8
    }

    /// Bits 10-6 of `instruction`.
    pub fn shamt(instruction: u32) -> (r: u8)
        ensures
            r == shamt_of(instruction),
            r < 32,
    {
        assert((instruction >> 6) & 0x1F == instruction / 0x40 % 32) by (bit_vector);
        ((instruction >> 6) & 0x1F) as u8
    }

    /// Bits 5-0 of `instruction`.
    pub fn funct(instruction: u32) -> (r: u8)
        ensures
            r == funct_of(instruction),
            r < 64,
    {
        assert(instruction & 0x3F == instruction % 64) by (bit_vector);
        (instruction & 0x3F) as u8
    }

    /// Bits 15-0 of `instruction`: the immediate.
    pub fn imm(instruction: u32) -> (r: u16)
        ensures
            r == imm_of(instruction),
    {
        assert(instruction & 0xFFFF == instruction % 0x1_0000) by (bit_vector);
        (instruction & 0xFFFF) as u16
    }

    /// The operation that `instruction` encodes. Never fails: a word outside
    /// the instruction set decodes to one of the two unknown operations.
    pub fn operation(instruction: u32) -> (op: Operation)
        ensures
            op == operation_of(instruction),
    {
        let opcode = Self::opcode(instruction);
        let funct = Self::funct(instruction);
        match opcode {
            0x00 => match funct {
                0x20 => Operation::Add,
                0x22 => Operation::Sub,
                0x2A => Operation::Slt,
                _ => Operation::UnknownFunct(funct),
            },
            0x08 => Operation::Addi,
            0x04 => Operation::Beq,
            0x23 => Operation::Lw,
            0x2B => Operation::Sw,
            _ => Operation::UnknownOpcode(opcode),
        }
    }

    /// What a step asks for: a well-formed cache, and for an engine that
    /// is running, room in the counters that the step may advance: one
    /// cycle, two ticks of the cache's clock, one hit and one miss.
    pub open spec fn spec_can_step(&self, cache: &Cache) -> bool {
        &&& cache.wf()
        &&& !self.halted ==> {
            &&& self.cycle < u32::MAX
            &&& cache.access_counter <= u64::MAX - 2
            &&& cache.hits < u32::MAX
            &&& cache.misses < u32::MAX
        }
    }

    /// Checks whether [`CPU::step`] may be called.
    #[verifier::when_used_as_spec(spec_can_step)]
    pub fn can_step(&self, cache: &Cache) -> (ok: bool)
        ensures
            ok == self.spec_can_step(cache),
    {
        cache.is_well_formed() && (self.halted || (self.cycle < u32::MAX && cache.access_counter
            <= u64::MAX - 2 && cache.hits < u32::MAX && cache.misses < u32::MAX))
    }

    /// Executes one instruction. Does nothing if the engine is halted.
    /// Else it fetches the word at the program counter (0 where there is
    /// none), executes it, counts the cycle, and halts if memory holds
    /// nothing at the new program counter. Loads and stores go through
    /// `cache`. Returns the trace event of the instruction.
    pub fn step(&mut self, memory: &mut Memory, cache: &mut Cache) -> (event: Option<TraceEvent>)
        requires
            old(self).can_step(old(cache)),
        ensures
            final(cache).wf(),
            machine(final(self), final(memory), final(cache)) == machine(
                old(self),
                old(memory),
                old(cache),
            ).step(),
            event == machine(old(self), old(memory), old(cache)).event(),
    {
        if self.halted {
            return None;
        }
        let ghost before = machine(self, memory, cache);
        let pc = self.pc;
        let instruction = match memory.data.get(&pc) {
            Some(word) => *word,
            None => 0,
        };
        let operation = Self::operation(instruction);
        let rs = Self::rs(instruction);
        let rt = Self::rt(instruction);
        let rd = Self::rd(instruction);
        let imm = Self::imm(instruction);
        let left = self.registers[rs as usize];
        let right = self.registers[rt as usize];
        let mut next = self.pc.wrapping_add(1);

        let outcome = match operation {
            Operation::Add | Operation::Sub | Operation::Slt => {
                let value = compute(operation, left, right, imm);
                self.registers[rd as usize] = value;
                Outcome::Computed { register: rd, value }
            },
            Operation::Addi => {
                let value = compute(operation, left, right, imm);
                self.registers[rt as usize] = value;
                Outcome::Computed { register: rt, value }
            },
            Operation::Beq => {
                let taken = left == right;
                if taken {
                    next = branch_target(self.pc, imm);
                }
                Outcome::Branched { taken }
            },
            Operation::Lw => {
                let address = address_of(left, imm);
                let (value, hit, created) = load(memory, cache, address);
                self.registers[rt as usize] = value;
                Outcome::Loaded { register: rt, address, value, hit, created }
            },
            Operation::Sw => {
                let address = address_of(left, imm);
                memory.store(address, right, WordKind::Data);
                cache.write(address, right);
                Outcome::Stored { address, value: right }
            },
            Operation::UnknownFunct(_) | Operation::UnknownOpcode(_) => Outcome::Unsupported,
        };
        self.pc = next;
        self.cycle += 1;
        if !memory.data.contains_key(&self.pc) {
            self.halted = true;
        }
        proof {
            let after = machine(self, memory, cache);
            let done = before.execute(instruction);
            assert(after.cpu.registers =~= done.cpu.registers);
            assert(after.memory == done.memory);
            assert(after.cache == done.cache);
            assert(self.pc == before.next_pc(instruction));
            assert(after.cpu == before.step().cpu);
        }
        Some(TraceEvent { pc, instruction, operation, outcome })
    }
}

/// The value that an arithmetic instruction writes to its destination.
fn compute(operation: Operation, left: u32, right: u32, imm: u16) -> (value: u32)
    ensures
        value == computed_value(operation, left, right, imm),
{
    match operation {
        Operation::Add => left.wrapping_add(right),
        Operation::Sub => left.wrapping_sub(right),
        Operation::Slt => {
            assert((left as i32) as int == as_signed(left)) by (bit_vector);
            assert((right as i32) as int == as_signed(right)) by (bit_vector);
            if (left as i32) < (right as i32) {
                1
            } else {
                0
            }
        },
        Operation::Addi => left.wrapping_add_signed(signed_immediate(imm)),
        _ => 0,
    }
}

/// Where a taken branch at `pc` with immediate `imm` leads.
fn branch_target(pc: u8, imm: u16) -> (target: u8)
    ensures
        target == wrap8(pc + 1 + sign_extend16(imm)),
{
    if imm >= 0x8000 {
        // A backward branch is computed in 16-bit signed arithmetic and cut
        // down to 8 bits.
        let offset: i16 = imm as i16;
        assert(offset as int == imm - 0x1_0000) by (bit_vector)
            requires
                offset == imm as i16,
                imm >= 0x8000,
        ;
        let target: i16 = pc as i16 + 1 + offset;
        assert((target as u8) as int == (target + 0x8000) % 256) by (bit_vector);
        target as u8
    } else {
        // A forward branch wraps around in 8-bit unsigned arithmetic.
        pc.wrapping_add(1).wrapping_add((imm % 256) as u8)
    }
}

/// Loads the word at `address` through the cache. Returns the word, whether
/// the cache held it, and whether the address was created in memory.
fn load(memory: &mut Memory, cache: &mut Cache, address: u8) -> (r: (u32, bool, bool))
    requires
        old(cache).wf(),
        old(cache).access_counter <= u64::MAX - 2,
        old(cache).hits < u32::MAX,
        old(cache).misses < u32::MAX,
    ensures
        final(cache).wf(),
        r.0 == loaded_word(old(memory)@, old(cache)@, address),
        r.1 == old(cache)@.holds(address),
        r.2 == (!old(cache)@.holds(address) && !old(memory)@.data.contains_key(address)),
        final(memory)@ == memory_after_load(old(memory)@, old(cache)@, address),
        final(cache)@ == cache_after_load(old(memory)@, old(cache)@, address),
{
    let (cached, hit) = cache.read(address);
    if hit {
        (cached, true, false)
    } else {
        let (word, created) = match memory.data.get(&address) {
            Some(word) => (*word, false),
            None => (0, true),
        };
        if created {
            memory.data.insert(address, 0);
        }
        cache.write(address, word);
        assert(memory@.data =~= old(memory)@.data.insert(address, word));
        (word, false, created)
    }
}

} // verus!
