//! Laws of the execution engine, proved over [`Machine`].

use crate::cache_laws::{lemma_read_after_write, lemma_read_keeps_contents};
use crate::cache::{lemma_read_preserves_wf, lemma_write_preserves_wf};
use crate::cpu::{
    computed_value, effective_address, imm_of, operation_of, rd_of, rs_of, rt_of, Machine,
    Operation,
};
use vstd::prelude::*;

verus! {

/// A step leaves a well-formed machine well formed.
pub proof fn lemma_step_preserves_wf(m: Machine)
    requires
        m.wf(),
    ensures
        m.step().wf(),
{
    let word = m.fetched();
    let address = effective_address(m.register(rs_of(word)), imm_of(word));
    lemma_read_preserves_wf(m.cache, address);
    lemma_write_preserves_wf(m.cache.read(address), address, m.memory.word_or_zero(address));
    lemma_write_preserves_wf(m.cache, address, m.register(rt_of(word)));
}

/// Addition wraps: a sum beyond 2^32 - 1 loses 2^32, whatever the operands.
pub proof fn lemma_add_wraps(left: u32, right: u32, imm: u16)
    ensures
        computed_value(Operation::Add, left, right, imm) == if left + right > u32::MAX {
            left + right - 0x1_0000_0000
        } else {
            left + right
        },
{
}

/// Subtraction wraps: a negative difference gains 2^32, which is its
/// two's-complement representation.
pub proof fn lemma_sub_wraps(left: u32, right: u32, imm: u16)
    ensures
        computed_value(Operation::Sub, left, right, imm) == if left < right {
            left - right + 0x1_0000_0000
        } else {
            left - right
        },
{
}

/// ADD and SUB put the wrapped sum or difference of `rs` and `rt` into `rd`,
/// move the program counter on by one, and touch neither memory nor cache.
pub proof fn lemma_add_sub_step(m: Machine)
    requires
        m.wf(),
        !m.cpu.halted,
        operation_of(m.fetched()) == Operation::Add || operation_of(m.fetched())
            == Operation::Sub,
    ensures
        ({
            let word = m.fetched();
            let left = m.register(rs_of(word));
            let right = m.register(rt_of(word));
            &&& operation_of(word) == Operation::Add ==> m.step().register(rd_of(word)) == (left
                + right) % 0x1_0000_0000
            &&& operation_of(word) == Operation::Sub ==> m.step().register(rd_of(word)) == (left
                - right) % 0x1_0000_0000
            &&& m.step().cpu.pc == (m.cpu.pc + 1) % 256
            &&& m.step().memory == m.memory
            &&& m.step().cache == m.cache
        }),
{
}

/// BEQ with equal operands moves the program counter to `pc + 1 + k` for an
/// immediate `k >= 0` and to `pc + 1 - k` for an immediate `-k < 0`, modulo
/// 256; with unequal operands it moves it to `pc + 1`, whatever the
/// immediate. Nothing else changes but the cycle count and the halt flag.
pub proof fn lemma_branch_step(m: Machine)
    requires
        !m.cpu.halted,
        operation_of(m.fetched()) == Operation::Beq,
    ensures
        ({
            let word = m.fetched();
            let imm = imm_of(word);
            let equal = m.register(rs_of(word)) == m.register(rt_of(word));
            &&& equal && imm < 0x8000 ==> m.step().cpu.pc == (m.cpu.pc + 1 + imm) % 256
            &&& equal && imm >= 0x8000 ==> m.step().cpu.pc == (m.cpu.pc + 1 - (0x1_0000 - imm))
                % 256
            &&& !equal ==> m.step().cpu.pc == (m.cpu.pc + 1) % 256
            &&& m.step().cpu.registers == m.cpu.registers
            &&& m.step().memory == m.memory
            &&& m.step().cache == m.cache
        }),
{
}

/// LW from an address that is neither in memory nor in the cache yields 0,
/// is counted as a miss, and leaves the address in memory and in the cache
/// with word 0.
pub proof fn lemma_load_of_untouched_address(m: Machine)
    requires
        m.wf(),
        !m.cpu.halted,
        operation_of(m.fetched()) == Operation::Lw,
        !m.memory.data.contains_key(
            effective_address(m.register(rs_of(m.fetched())), imm_of(m.fetched())),
        ),
        !m.cache.holds(effective_address(m.register(rs_of(m.fetched())), imm_of(m.fetched()))),
    ensures
        ({
            let word = m.fetched();
            let address = effective_address(m.register(rs_of(word)), imm_of(word));
            &&& m.step().register(rt_of(word)) == 0
            &&& m.step().memory.data.contains_key(address)
            &&& m.step().memory.data[address] == 0
            &&& m.step().memory.kinds == m.memory.kinds
            &&& m.step().cache.holds(address)
            &&& m.step().cache.word(address) == 0
            &&& m.step().cache.misses == m.cache.misses + 1
            &&& m.step().cache.hits == m.cache.hits
        }),
{
    let word = m.fetched();
    let address = effective_address(m.register(rs_of(word)), imm_of(word));
    lemma_read_preserves_wf(m.cache, address);
    lemma_read_after_write(m.cache.read(address), address, 0);
}

/// After a load the cache holds the address with the word that was loaded,
/// so that a second load from it is a hit.
pub proof fn lemma_load_fills_cache(m: Machine, register: u8, address: u8)
    requires
        m.wf(),
    ensures
        m.load(register, address).cache.holds(address),
        m.load(register, address).cache.word(address) == m.loaded_word(address),
{
    lemma_read_preserves_wf(m.cache, address);
    if m.cache.holds(address) {
        lemma_read_keeps_contents(m.cache, address, address);
    } else {
        lemma_read_after_write(m.cache.read(address), address, m.memory.word_or_zero(address));
    }
}

/// After a store the word is in memory, tagged as data, and in the cache.
pub proof fn lemma_store_writes_through(m: Machine, address: u8, value: u32)
    requires
        m.wf(),
    ensures
        m.store(address, value).memory.data.contains_key(address),
        m.store(address, value).memory.data[address] == value,
        m.store(address, value).cache.holds(address),
        m.store(address, value).cache.word(address) == value,
{
    lemma_read_after_write(m.cache, address, value);
}

} // verus!
