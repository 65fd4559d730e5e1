//! Set-associative cache with least-recently-used replacement.
//!
//! An address `addr` belongs to set `addr mod num_sets` and carries the tag
//! `addr div num_sets`. Every access, hit or miss, read or write, advances one
//! shared logical clock, and the block that was touched is stamped with it.
//!
//! The contracts are stated over [`CacheModel`], the mathematical view of a
//! [`Cache`]: a map from set index to the sequence of blocks of that set,
//! plus the configuration and the counters as natural numbers.

use std::collections::HashMap;
use vstd::prelude::*;

verus! {

/// Cost of one cache access, in cycles, for front ends that account for time.
pub const CACHE_ACCESS_COST: u32 = 2;

/// One cache line.
#[derive(Clone, Copy, Debug)]
pub struct CacheBlock {
    pub tag: u8,
    pub data: u32,
    pub valid: bool,
    /// Value of the cache's clock when the block was last read or written.
    pub last_used: u64,
}

/// The blocks that share one set index, in the order in which they were filled.
pub struct CacheSet {
    pub blocks: Vec<CacheBlock>,
    pub capacity: usize,
}

/// A set-associative cache over the 8-bit address space.
pub struct Cache {
    /// The sets, by set index. A set that is missing is made by the first
    /// write to it.
    pub sets: HashMap<u8, CacheSet>,
    pub num_sets: usize,
    pub blocks_per_set: usize,
    /// The logical clock: the number of reads and writes so far.
    pub access_counter: u64,
    /// The number of reads that hit.
    pub hits: u32,
    /// The number of reads that missed.
    pub misses: u32,
}

/// The hit rate as an exact fraction `hits / accesses`, with `accesses > 0`.
#[derive(Clone, Copy, Debug)]
pub struct HitRate {
    pub hits: u64,
    pub accesses: u64,
}

/// Mathematical view of a [`Cache`].
#[verifier::ext_equal]
pub struct CacheModel {
    /// The blocks of each set that exists. A set that was never created holds nothing.
    pub sets: Map<u8, Seq<CacheBlock>>,
    pub num_sets: nat,
    pub blocks_per_set: nat,
    pub access_counter: nat,
    pub hits: nat,
    pub misses: nat,
}

/// The set that `addr` maps to in a cache of `num_sets` sets.
pub open spec fn set_index_of(addr: u8, num_sets: nat) -> u8 {
    (addr as nat % num_sets) as u8
}

/// The tag that tells `addr` from the other addresses of its set.
pub open spec fn tag_of(addr: u8, num_sets: nat) -> u8 {
    (addr as nat / num_sets) as u8
}

/// `i` is the first valid block of `blocks` that carries `tag`.
pub open spec fn is_first_match(blocks: Seq<CacheBlock>, tag: u8, i: int) -> bool {
    &&& 0 <= i < blocks.len()
    &&& blocks[i].valid
    &&& blocks[i].tag == tag
    &&& forall|j: int| 0 <= j < i ==> !(blocks[j].valid && blocks[j].tag == tag)
}

/// Searches `blocks` from index `start` on for a valid block that carries `tag`.
pub open spec fn find_from(blocks: Seq<CacheBlock>, tag: u8, start: int) -> Option<int>
    decreases blocks.len() - start,
{
    if start < 0 || start >= blocks.len() {
        None
    } else if blocks[start].valid && blocks[start].tag == tag {
        Some(start)
    } else {
        find_from(blocks, tag, start + 1)
    }
}

/// Index of the first valid block of `blocks` that carries `tag`, if there is one.
pub open spec fn find(blocks: Seq<CacheBlock>, tag: u8) -> Option<int> {
    find_from(blocks, tag, 0)
}

/// `i` is the replacement victim of `blocks`: its `last_used` is the smallest,
/// and among equals it is the one with the lowest index.
pub open spec fn is_lru(blocks: Seq<CacheBlock>, i: int) -> bool {
    &&& 0 <= i < blocks.len()
    &&& forall|j: int| 0 <= j < blocks.len() ==> blocks[i].last_used <= blocks[j].last_used
    &&& forall|j: int| 0 <= j < i ==> blocks[i].last_used < blocks[j].last_used
}

/// Index of the replacement victim among the first `n` blocks (0 when `n` is 0).
pub open spec fn lru_of_prefix(blocks: Seq<CacheBlock>, n: int) -> int
    decreases n,
{
    if n <= 1 {
        0
    } else {
        let best = lru_of_prefix(blocks, n - 1);
        if blocks[n - 1].last_used < blocks[best].last_used {
            n - 1
        } else {
            best
        }
    }
}

/// Index of the replacement victim of `blocks`; see [`is_lru`].
pub open spec fn lru_index(blocks: Seq<CacheBlock>) -> int {
    lru_of_prefix(blocks, blocks.len() as int)
}

/// What holds of the blocks of one set: no more of them than the set has room
/// for, all valid, no tag twice, none stamped later than the clock shows.
pub open spec fn set_wf(blocks: Seq<CacheBlock>, capacity: nat, clock: nat) -> bool {
    &&& blocks.len() <= capacity
    &&& forall|i: int| 0 <= i < blocks.len() ==> blocks[i].valid
    &&& forall|i: int| 0 <= i < blocks.len() ==> blocks[i].last_used <= clock
    &&& forall|i: int, j: int|
        0 <= i < j < blocks.len() ==> blocks[i].tag != blocks[j].tag
}

/// `blocks` with block `i` stamped as used at time `now`.
pub open spec fn stamped(blocks: Seq<CacheBlock>, i: int, now: nat) -> Seq<CacheBlock> {
    blocks.update(i, CacheBlock { last_used: now as u64, ..blocks[i] })
}

/// The blocks of a set with room for `capacity` blocks after `data` was
/// written under `tag` at time `now`: the block with this tag is updated in
/// place if there is one; else a new block is appended while there is room;
/// else the new block takes the place of the least recently used one.
pub open spec fn written(
    blocks: Seq<CacheBlock>,
    tag: u8,
    data: u32,
    now: nat,
    capacity: nat,
) -> Seq<CacheBlock> {
    let fresh = CacheBlock { tag, data, valid: true, last_used: now as u64 };
    match find(blocks, tag) {
        Some(i) => blocks.update(i, CacheBlock { data, last_used: now as u64, ..blocks[i] }),
        None => if blocks.len() < capacity {
            blocks.push(fresh)
        } else {
            blocks.update(lru_index(blocks), fresh)
        },
    }
}

impl CacheModel {
    /// A cache in which every set exists and is empty, and nothing was counted yet.
    pub open spec fn empty(num_sets: nat, blocks_per_set: nat) -> CacheModel {
        CacheModel {
            sets: Map::new(|k: u8| (k as nat) < num_sets, |k: u8| Seq::<CacheBlock>::empty()),
            num_sets,
            blocks_per_set,
            access_counter: 0,
            hits: 0,
            misses: 0,
        }
    }

    /// The set that `addr` maps to.
    pub open spec fn set_index(self, addr: u8) -> u8 {
        set_index_of(addr, self.num_sets)
    }

    /// The tag of `addr`.
    pub open spec fn tag(self, addr: u8) -> u8 {
        tag_of(addr, self.num_sets)
    }

    /// The blocks of set `index`; none if the set does not exist.
    pub open spec fn blocks(self, index: u8) -> Seq<CacheBlock> {
        if self.sets.contains_key(index) {
            self.sets[index]
        } else {
            Seq::empty()
        }
    }

    /// Where `addr` is cached: the index of its block within its set.
    pub open spec fn position(self, addr: u8) -> Option<int> {
        find(self.blocks(self.set_index(addr)), self.tag(addr))
    }

    /// `addr` is cached: its set holds a valid block with its tag.
    pub open spec fn holds(self, addr: u8) -> bool {
        self.position(addr) is Some
    }

    /// The word cached for `addr`, where `self.holds(addr)`.
    pub open spec fn word(self, addr: u8) -> u32
        recommends
            self.holds(addr),
    {
        self.blocks(self.set_index(addr))[self.position(addr).unwrap()].data
    }

    /// The invariant of the model: positive set and block counts, and
    /// every set well formed at the time that the clock shows.
    pub open spec fn wf(self) -> bool {
        &&& self.num_sets > 0
        &&& self.blocks_per_set > 0
        &&& forall|k: u8| #[trigger]
            self.sets.contains_key(k) ==> set_wf(
                self.sets[k],
                self.blocks_per_set,
                self.access_counter,
            )
    }

    /// What a read of `addr` returns: the cached word and `true` on a hit,
    /// `(0, false)` on a miss.
    pub open spec fn read_result(self, addr: u8) -> (u32, bool) {
        if self.holds(addr) {
            (self.word(addr), true)
        } else {
            (0, false)
        }
    }

    /// The cache after a read of `addr`. The clock advances. On a hit the
    /// block is stamped and `hits` grows by one; on a miss `misses` grows by
    /// one and no block changes.
    pub open spec fn read(self, addr: u8) -> CacheModel {
        let now = self.access_counter + 1;
        let index = self.set_index(addr);
        match self.position(addr) {
            Some(i) => CacheModel {
                sets: self.sets.insert(index, stamped(self.blocks(index), i, now)),
                access_counter: now,
                hits: self.hits + 1,
                ..self
            },
            None => CacheModel { access_counter: now, misses: self.misses + 1, ..self },
        }
    }

    /// The blocks of the set of `addr` after `data` was written to `addr` at
    /// time `now`; see [`written`].
    pub open spec fn written_blocks(self, addr: u8, data: u32, now: nat) -> Seq<CacheBlock> {
        written(self.blocks(self.set_index(addr)), self.tag(addr), data, now, self.blocks_per_set)
    }

    /// The cache after `data` was written to `addr`. The clock advances, the
    /// set of `addr` exists afterwards, and the hit and miss counters stay.
    pub open spec fn write(self, addr: u8, data: u32) -> CacheModel {
        let now = self.access_counter + 1;
        CacheModel {
            sets: self.sets.insert(self.set_index(addr), self.written_blocks(addr, data, now)),
            access_counter: now,
            ..self
        }
    }
}

impl View for Cache {
    type V = CacheModel;

    open spec fn view(&self) -> CacheModel {
        CacheModel {
            sets: Map::new(
                |k: u8| self.sets@.contains_key(k),
                |k: u8| self.sets@[k].blocks@,
            ),
            num_sets: self.num_sets as nat,
            blocks_per_set: self.blocks_per_set as nat,
            access_counter: self.access_counter as nat,
            hits: self.hits as nat,
            misses: self.misses as nat,
        }
    }
}

impl Cache {
    /// The invariant of a cache: its view is well formed, and every set has
    /// room for `blocks_per_set` blocks.
    pub open spec fn wf(&self) -> bool {
        &&& self@.wf()
        &&& forall|k: u8| #[trigger]
            self.sets@.contains_key(k) ==> self.sets@[k].capacity == self.blocks_per_set
    }

    /// A cache of `num_sets` sets with room for `blocks_per_set` blocks each,
    /// all of them empty.
    pub fn new(num_sets: usize, blocks_per_set: usize) -> (cache: Cache)
        requires
            num_sets > 0,
            blocks_per_set > 0,
        ensures
            cache.wf(),
            cache@ == CacheModel::empty(num_sets as nat, blocks_per_set as nat),
    {
        let mut sets: HashMap<u8, CacheSet> = HashMap::new();
        let limit: usize = if num_sets < 256 {
            num_sets
        } else {
            256
        };
        let mut i: usize = 0;
        while i < limit
            invariant
                i <= limit <= 256,
                limit <= num_sets,
                forall|k: u8| sets@.contains_key(k) <==> (k as int) < i,
                forall|k: u8| #[trigger]
                    sets@.contains_key(k) ==> sets@[k].blocks@.len() == 0 && sets@[k].capacity
                        == blocks_per_set,
            decreases limit - i,
        {
            sets.insert(i as u8, CacheSet { blocks: Vec::new(), capacity: blocks_per_set });
            i += 1;
        }
        let cache = Cache { sets, num_sets, blocks_per_set, access_counter: 0, hits: 0, misses: 0 };
        proof {
            let model = CacheModel::empty(num_sets as nat, blocks_per_set as nat);
            assert forall|k: u8| cache@.sets.contains_key(k) implies #[trigger] cache@.sets[k]
                == model.sets[k] by {
                assert(cache.sets@.contains_key(k));
                assert(cache@.sets[k] =~= Seq::<CacheBlock>::empty());
            }
            assert(cache@.sets =~= model.sets);
        }
        cache
    }

    /// Splits `addr` into its tag and its set index, in this order.
    pub fn get_tag_and_set(&self, addr: u8) -> (r: (u8, u8))
        requires
            self.num_sets > 0,
        ensures
            r.0 == self@.tag(addr),
            r.1 == self@.set_index(addr),
    {
        if self.num_sets >= 256 {
            proof {
                vstd::arithmetic::div_mod::lemma_small_mod(addr as nat, self.num_sets as nat);
                vstd::arithmetic::div_mod::lemma_basic_div_specific_divisor(self.num_sets as int);
            }
            (0, addr)
        } else {
            let n = self.num_sets as u8;
            (addr / n, addr % n)
        }
    }

    /// Looks `addr` up. A hit returns the cached word and `true`, and stamps
    /// the block; a miss returns `(0, false)` and leaves every block as it
    /// was. Either way the clock advances and the access is counted.
    pub fn read(&mut self, addr: u8) -> (r: (u32, bool))
        requires
            old(self).wf(),
            old(self).access_counter < u64::MAX,
            old(self).hits < u32::MAX,
            old(self).misses < u32::MAX,
        ensures
            final(self).wf(),
            final(self)@ == old(self)@.read(addr),
            r == old(self)@.read_result(addr),
    {
        self.access_counter += 1;
        let now = self.access_counter;
        let (tag, index) = self.get_tag_and_set(addr);
        let found = match self.sets.get(&index) {
            Some(set) => find_block(&set.blocks, tag),
            None => None,
        };
        match found {
            Some(i) => {
                // The set exists: the block was found in it.
                let capacity = self.blocks_per_set;
                let set = self.sets.entry(index).or_insert(
                    CacheSet { blocks: Vec::new(), capacity },
                );
                set.blocks[i].last_used = now;
                let data = set.blocks[i].data;
                self.hits += 1;
                proof {
                    assert(self@.sets =~= old(self)@.read(addr).sets);
                    lemma_read_preserves_wf(old(self)@, addr);
                }
                (data, true)
            },
            None => {
                self.misses += 1;
                proof {
                    assert(self@.sets =~= old(self)@.sets);
                    lemma_read_preserves_wf(old(self)@, addr);
                }
                (0, false)
            },
        }
    }

    /// Caches `data` for `addr`. The block of `addr` is updated in place if
    /// its set holds one. Else a new block is appended to the set while it has
    /// room, and takes the place of the least recently used block when the set
    /// is full. The clock advances; hits and misses are not counted.
    pub fn write(&mut self, addr: u8, data: u32)
        requires
            old(self).wf(),
            old(self).access_counter < u64::MAX,
        ensures
            final(self).wf(),
            final(self)@ == old(self)@.write(addr, data),
    {
        self.access_counter += 1;
        let now = self.access_counter;
        let (tag, index) = self.get_tag_and_set(addr);
        let capacity = self.blocks_per_set;
        let ghost before = old(self)@;
        let ghost blocks = before.blocks(index);
        let set = self.sets.entry(index).or_insert(CacheSet { blocks: Vec::new(), capacity });
        assert(set.blocks@ == blocks && set.capacity == capacity);
        let ghost after = before.written_blocks(addr, data, now as nat);
        match find_block(&set.blocks, tag) {
            Some(i) => {
                set.blocks[i].data = data;
                set.blocks[i].last_used = now;
            },
            None => {
                let fresh = CacheBlock { tag, data, valid: true, last_used: now };
                if set.blocks.len() < set.capacity {
                    set.blocks.push(fresh);
                } else {
                    let victim = lru_block(&set.blocks);
                    set.blocks[victim] = fresh;
                }
            },
        }
        assert(set.blocks@ =~= after);
        proof {
            assert(self@.sets =~= before.write(addr, data).sets);
            lemma_write_preserves_wf(before, addr, data);
        }
    }

    /// Checks the invariant of the cache.
    pub fn is_well_formed(&self) -> (ok: bool)
        ensures
            ok == self.wf(),
    {
        if self.num_sets == 0 || self.blocks_per_set == 0 {
            return false;
        }
        let mut index: usize = 0;
        while index < 256
            invariant
                index <= 256,
                self.num_sets > 0,
                self.blocks_per_set > 0,
                forall|k: u8|
                    k < index && #[trigger] self.sets@.contains_key(k) ==> {
                        &&& self.sets@[k].capacity == self.blocks_per_set
                        &&& set_wf(
                            self.sets@[k].blocks@,
                            self.blocks_per_set as nat,
                            self.access_counter as nat,
                        )
                    },
            decreases 256 - index,
        {
            let key = index as u8;
            match self.sets.get(&key) {
                Some(set) => {
                    if !set_is_well_formed(set, self.blocks_per_set, self.access_counter) {
                        assert(self.sets@.contains_key(key));
                        assert(self@.sets.contains_key(key));
                        return false;
                    }
                },
                None => {},
            }
            index += 1;
        }
        assert forall|k: u8| #[trigger] self@.sets.contains_key(k) implies set_wf(
            self@.sets[k],
            self@.blocks_per_set,
            self@.access_counter,
        ) by {
            assert(self.sets@.contains_key(k));
        }
        true
    }

    /// The share of reads that hit, as the fraction `hits / accesses`:
    /// `hits / (hits + misses)`, and `0 / 1` while nothing was read.
    pub fn get_hit_rate(&self) -> (rate: HitRate)
        ensures
            0 <= rate.hits <= rate.accesses,
            rate.accesses > 0,
            self.hits + self.misses > 0 ==> rate.hits == self.hits && rate.accesses == self.hits
                + self.misses,
            self.hits + self.misses == 0 ==> rate.hits == 0 && rate.accesses == 1,
    {
        let total: u64 = self.hits as u64 + self.misses as u64;
        if total > 0 {
            HitRate { hits: self.hits as u64, accesses: total }
        } else {
            HitRate { hits: 0, accesses: 1 }
        }
    }
}

/// Checks that `set` has room for `capacity` blocks and is well formed at
/// time `clock`.
fn set_is_well_formed(set: &CacheSet, capacity: usize, clock: u64) -> (ok: bool)
    ensures
        ok == (set.capacity == capacity && set_wf(set.blocks@, capacity as nat, clock as nat)),
{
    if set.capacity != capacity || set.blocks.len() > capacity {
        return false;
    }
    let mut i: usize = 0;
    while i < set.blocks.len()
        invariant
            i <= set.blocks@.len(),
            forall|j: int| 0 <= j < i ==> set.blocks@[j].valid,
            forall|j: int| 0 <= j < i ==> set.blocks@[j].last_used <= clock,
            forall|j: int, k: int| 0 <= j < k < i ==> set.blocks@[j].tag != set.blocks@[k].tag,
        decreases set.blocks@.len() - i,
    {
        if !set.blocks[i].valid || set.blocks[i].last_used > clock {
            return false;
        }
        let mut j: usize = 0;
        while j < i
            invariant
                j <= i < set.blocks@.len(),
                forall|k: int| 0 <= k < j ==> set.blocks@[k].tag != set.blocks@[i as int].tag,
            decreases i - j,
        {
            if set.blocks[j].tag == set.blocks[i].tag {
                return false;
            }
            j += 1;
        }
        i += 1;
    }
    true
}

/// Index of the first valid block of `blocks` that carries `tag`.
fn find_block(blocks: &Vec<CacheBlock>, tag: u8) -> (found: Option<usize>)
    ensures
        match found {
            Some(i) => find(blocks@, tag) == Some(i as int) && i < blocks@.len(),
            None => find(blocks@, tag) is None,
        },
{
    proof {
        lemma_find(blocks@, tag);
    }
    let mut i: usize = 0;
    while i < blocks.len()
        invariant
            i <= blocks.len(),
            find(blocks@, tag) == find_from(blocks@, tag, i as int),
        decreases blocks.len() - i,
    {
        if blocks[i].valid && blocks[i].tag == tag {
            return Some(i);
        }
        i += 1;
    }
    None
}

/// Index of the least recently used block of `blocks`.
fn lru_block(blocks: &Vec<CacheBlock>) -> (victim: usize)
    requires
        blocks@.len() > 0,
    ensures
        victim == lru_index(blocks@),
        victim < blocks@.len(),
{
    let mut victim: usize = 0;
    let mut least: u64 = u64::MAX;
    let mut i: usize = 0;
    while i < blocks.len()
        invariant
            i <= blocks.len(),
            victim == lru_of_prefix(blocks@, i as int),
            i == 0 ==> least == u64::MAX,
            i > 0 ==> victim < i && least == blocks@[victim as int].last_used,
        decreases blocks.len() - i,
    {
        if blocks[i].last_used < least {
            least = blocks[i].last_used;
            victim = i;
        }
        i += 1;
    }
    victim
}

/// Replacing the blocks of one set by well-formed ones, one tick of the
/// clock later, leaves a well-formed cache well formed.
proof fn lemma_wf_after_set_change(c: CacheModel, d: CacheModel, index: u8)
    requires
        c.wf(),
        d.num_sets == c.num_sets,
        d.blocks_per_set == c.blocks_per_set,
        d.access_counter == c.access_counter + 1,
        d.sets.contains_key(index),
        d.sets == c.sets.insert(index, d.sets[index]),
        set_wf(d.sets[index], d.blocks_per_set, d.access_counter),
    ensures
        d.wf(),
{
    assert forall|k: u8| #[trigger] d.sets.contains_key(k) implies set_wf(
        d.sets[k],
        d.blocks_per_set,
        d.access_counter,
    ) by {
        if k != index {
            assert(c.sets.contains_key(k));
        }
    }
}

/// In a well-formed set a tag is at the one place where `find` finds it.
pub proof fn lemma_find_in_wf_set(blocks: Seq<CacheBlock>, tag: u8, capacity: nat, clock: nat)
    requires
        set_wf(blocks, capacity, clock),
    ensures
        match find(blocks, tag) {
            Some(i) => 0 <= i < blocks.len() && blocks[i].tag == tag,
            None => true,
        },
        forall|j: int|
            #![trigger blocks[j]]
            0 <= j < blocks.len() && blocks[j].tag == tag ==> find(blocks, tag) == Some(j),
{
    lemma_find(blocks, tag);
    assert forall|j: int| #![trigger blocks[j]] 0 <= j < blocks.len() && blocks[j].tag
        == tag implies find(blocks, tag) == Some(j) by {
        assert(blocks[j].valid);
        assert forall|k: int| 0 <= k < j implies !(blocks[k].valid && blocks[k].tag == tag) by {
            assert(blocks[k].tag != blocks[j].tag);
        }
        assert(is_first_match(blocks, tag, j));
    }
    match find(blocks, tag) {
        Some(i) => {
            assert(is_first_match(blocks, tag, i));
        },
        None => {},
    }
}

/// Stamping a block of a well-formed set leaves the set well formed.
pub proof fn lemma_stamped_wf(blocks: Seq<CacheBlock>, i: int, capacity: nat, clock: nat, now: nat)
    requires
        set_wf(blocks, capacity, clock),
        0 <= i < blocks.len(),
        clock <= now,
    ensures
        set_wf(stamped(blocks, i, now), capacity, now),
{
    let after = stamped(blocks, i, now);
    assert forall|j: int| 0 <= j < after.len() implies after[j].tag == blocks[j].tag
        && after[j].valid == blocks[j].valid by {}
}

/// A write leaves a well-formed set well formed.
pub proof fn lemma_written_wf(
    blocks: Seq<CacheBlock>,
    tag: u8,
    data: u32,
    capacity: nat,
    clock: nat,
    now: nat,
)
    requires
        set_wf(blocks, capacity, clock),
        capacity > 0,
        clock <= now,
    ensures
        set_wf(written(blocks, tag, data, now, capacity), capacity, now),
{
    let after = written(blocks, tag, data, now, capacity);
    lemma_find(blocks, tag);
    match find(blocks, tag) {
        Some(i) => {
            assert(is_first_match(blocks, tag, i));
            assert forall|j: int| 0 <= j < after.len() implies after[j].tag == blocks[j].tag by {}
        },
        None => {
            if blocks.len() < capacity {
                assert forall|j: int, k: int| 0 <= j < k < after.len() implies after[j].tag
                    != after[k].tag by {
                    if k == blocks.len() {
                        assert(blocks[j].valid);
                    }
                }
            } else {
                lemma_lru_index(blocks);
                let v = lru_index(blocks);
                assert(is_lru(blocks, v));
                assert forall|j: int, k: int| 0 <= j < k < after.len() implies after[j].tag
                    != after[k].tag by {
                    assert(blocks[j].valid && blocks[k].valid);
                }
            }
        },
    }
}

/// The blocks of any set of a well-formed cache are well formed.
pub proof fn lemma_blocks_wf(c: CacheModel, index: u8)
    requires
        c.wf(),
    ensures
        set_wf(c.blocks(index), c.blocks_per_set, c.access_counter),
{
    if c.sets.contains_key(index) {
    }
}

/// A read leaves a well-formed cache well formed.
pub proof fn lemma_read_preserves_wf(c: CacheModel, addr: u8)
    requires
        c.wf(),
    ensures
        c.read(addr).wf(),
{
    let index = c.set_index(addr);
    let d = c.read(addr);
    lemma_blocks_wf(c, index);
    lemma_find(c.blocks(index), c.tag(addr));
    match c.position(addr) {
        Some(i) => {
            assert(is_first_match(c.blocks(index), c.tag(addr), i));
            lemma_stamped_wf(
                c.blocks(index),
                i,
                c.blocks_per_set,
                c.access_counter,
                c.access_counter + 1,
            );
            assert(d.sets == c.sets.insert(index, d.sets[index]));
            lemma_wf_after_set_change(c, d, index);
        },
        None => {
            assert forall|k: u8| #[trigger] d.sets.contains_key(k) implies set_wf(
                d.sets[k],
                d.blocks_per_set,
                d.access_counter,
            ) by {
                assert(c.sets.contains_key(k));
            }
        },
    }
}

/// A write leaves a well-formed cache well formed.
pub proof fn lemma_write_preserves_wf(c: CacheModel, addr: u8, data: u32)
    requires
        c.wf(),
    ensures
        c.write(addr, data).wf(),
{
    let index = c.set_index(addr);
    let d = c.write(addr, data);
    lemma_blocks_wf(c, index);
    lemma_written_wf(
        c.blocks(index),
        c.tag(addr),
        data,
        c.blocks_per_set,
        c.access_counter,
        c.access_counter + 1,
    );
    assert(d.sets == c.sets.insert(index, d.sets[index]));
    lemma_wf_after_set_change(c, d, index);
}

/// `find_from` returns the first match at or after `start`, and `None` only
/// where there is none.
pub proof fn lemma_find_from(blocks: Seq<CacheBlock>, tag: u8, start: int)
    requires
        0 <= start <= blocks.len(),
    ensures
        match find_from(blocks, tag, start) {
            Some(i) => {
                &&& start <= i < blocks.len()
                &&& blocks[i].valid
                &&& blocks[i].tag == tag
                &&& forall|j: int| start <= j < i ==> !(blocks[j].valid && blocks[j].tag == tag)
            },
            None => forall|j: int|
                start <= j < blocks.len() ==> !(blocks[j].valid && blocks[j].tag == tag),
        },
    decreases blocks.len() - start,
{
    if start < blocks.len() && !(blocks[start].valid && blocks[start].tag == tag) {
        lemma_find_from(blocks, tag, start + 1);
    }
}

/// `find` returns `Some(i)` exactly for the first match `i`.
pub proof fn lemma_find(blocks: Seq<CacheBlock>, tag: u8)
    ensures
        forall|i: int| find(blocks, tag) == Some(i) <==> is_first_match(blocks, tag, i),
        find(blocks, tag) is None <==> forall|j: int|
            0 <= j < blocks.len() ==> !(blocks[j].valid && blocks[j].tag == tag),
{
    lemma_find_from(blocks, tag, 0);
    assert forall|i: int| is_first_match(blocks, tag, i) implies find(blocks, tag) == Some(
        i,
    ) by {
        match find(blocks, tag) {
            Some(k) => {
                if k < i {
                    assert(!(blocks[k].valid && blocks[k].tag == tag));
                }
            },
            None => {},
        }
    }
}

/// `lru_of_prefix` picks the victim among the first `n` blocks.
pub proof fn lemma_lru_of_prefix(blocks: Seq<CacheBlock>, n: int)
    requires
        1 <= n <= blocks.len(),
    ensures
        is_lru(blocks.take(n), lru_of_prefix(blocks, n)),
    decreases n,
{
    if n > 1 {
        lemma_lru_of_prefix(blocks, n - 1);
        let best = lru_of_prefix(blocks, n - 1);
        let prev = blocks.take(n - 1);
        let cur = blocks.take(n);
        assert forall|j: int| 0 <= j < n - 1 implies cur[j] == prev[j] by {}
        let r = lru_of_prefix(blocks, n);
        assert forall|j: int| 0 <= j < cur.len() implies cur[r].last_used
            <= cur[j].last_used by {
            if j < n - 1 {
                assert(prev[best].last_used <= prev[j].last_used);
            }
        }
        assert forall|j: int| 0 <= j < r implies cur[r].last_used < cur[j].last_used by {
            if r == n - 1 {
                assert(prev[best].last_used <= prev[j].last_used);
            } else {
                assert(prev[best].last_used < prev[j].last_used);
            }
        }
    }
}

/// `lru_index` is the one index that [`is_lru`] describes.
pub proof fn lemma_lru_index(blocks: Seq<CacheBlock>)
    requires
        blocks.len() > 0,
    ensures
        forall|i: int| lru_index(blocks) == i <==> is_lru(blocks, i),
{
    lemma_lru_of_prefix(blocks, blocks.len() as int);
    assert(blocks.take(blocks.len() as int) =~= blocks);
    let r = lru_index(blocks);
    assert forall|i: int| is_lru(blocks, i) implies r == i by {
        if i < r {
            assert(blocks[r].last_used < blocks[i].last_used);
        } else if r < i {
            assert(blocks[i].last_used < blocks[r].last_used);
        }
    }
}

} // verus!
