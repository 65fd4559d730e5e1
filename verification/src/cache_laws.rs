//! Laws of the cache: what holds of every well-formed cache and every
//! sequence of accesses, proved over [`CacheModel`].

use crate::cache::{
    find, is_first_match, is_lru, lemma_blocks_wf, lemma_find, lemma_find_in_wf_set,
    lemma_lru_index, lemma_read_preserves_wf, lemma_write_preserves_wf, lemma_written_wf,
    lru_index, set_index_of, set_wf, stamped, tag_of, written, CacheBlock, CacheModel,
};
use vstd::prelude::*;
use vstd::set_lib::{lemma_int_range, lemma_len_subset, set_int_range};

verus! {

/// One access to the cache.
pub enum Access {
    Read { addr: u8 },
    Write { addr: u8, data: u32 },
}

/// The number of reads among `accesses`.
pub open spec fn reads(accesses: Seq<Access>) -> nat
    decreases accesses.len(),
{
    if accesses.len() == 0 {
        0
    } else {
        reads(accesses.drop_last()) + match accesses.last() {
            Access::Read { .. } => 1nat,
            Access::Write { .. } => 0nat,
        }
    }
}

impl CacheModel {
    /// The cache after `access`.
    pub open spec fn apply(self, access: Access) -> CacheModel {
        match access {
            Access::Read { addr } => self.read(addr),
            Access::Write { addr, data } => self.write(addr, data),
        }
    }

    /// The cache after `accesses`, made in order.
    pub open spec fn run(self, accesses: Seq<Access>) -> CacheModel
        decreases accesses.len(),
    {
        if accesses.len() == 0 {
            self
        } else {
            self.run(accesses.drop_last()).apply(accesses.last())
        }
    }

    /// The cache after the first `n` of the writes of `words[i]` to
    /// `addrs[i]`, made in order.
    pub open spec fn after_writes(self, addrs: Seq<u8>, words: Seq<u32>, n: nat) -> CacheModel
        decreases n,
    {
        if n == 0 {
            self
        } else {
            self.after_writes(addrs, words, (n - 1) as nat).write(addrs[n - 1], words[n - 1])
        }
    }
}

/// Two addresses of one set that carry the same tag are the same address.
pub proof fn lemma_tag_and_set_determine_address(a: u8, b: u8, num_sets: nat)
    requires
        num_sets > 0,
        set_index_of(a, num_sets) == set_index_of(b, num_sets),
        tag_of(a, num_sets) == tag_of(b, num_sets),
    ensures
        a == b,
{
    // An address is its tag times the number of sets, plus its set index.
    let n = num_sets as int;
    vstd::arithmetic::div_mod::lemma_fundamental_div_mod(a as int, n);
    vstd::arithmetic::div_mod::lemma_fundamental_div_mod(b as int, n);
    vstd::arithmetic::div_mod::lemma_div_is_ordered_by_denominator(a as int, 1, n);
    vstd::arithmetic::div_mod::lemma_div_is_ordered_by_denominator(b as int, 1, n);
}

/// A hit is a valid block: a block that is not valid is never found.
pub proof fn lemma_hit_is_valid(c: CacheModel, addr: u8)
    ensures
        match c.position(addr) {
            Some(i) => {
                let blocks = c.blocks(c.set_index(addr));
                0 <= i < blocks.len() && blocks[i].valid && blocks[i].tag == c.tag(addr)
            },
            None => true,
        },
{
    lemma_find(c.blocks(c.set_index(addr)), c.tag(addr));
    if let Some(i) = c.position(addr) {
        assert(is_first_match(c.blocks(c.set_index(addr)), c.tag(addr), i));
    }
}

/// After a write the set holds the written word under the written tag.
pub proof fn lemma_written_holds(
    blocks: Seq<CacheBlock>,
    tag: u8,
    data: u32,
    now: nat,
    capacity: nat,
)
    requires
        capacity > 0,
    ensures
        find(written(blocks, tag, data, now, capacity), tag) is Some,
        written(blocks, tag, data, now, capacity)[find(
            written(blocks, tag, data, now, capacity),
            tag,
        ).unwrap()].data == data,
{
    let after = written(blocks, tag, data, now, capacity);
    lemma_find(blocks, tag);
    lemma_find(after, tag);
    match find(blocks, tag) {
        Some(i) => {
            assert(is_first_match(blocks, tag, i));
            assert(is_first_match(after, tag, i));
        },
        None => {
            if blocks.len() < capacity {
                assert(is_first_match(after, tag, blocks.len() as int));
            } else {
                lemma_lru_index(blocks);
                let v = lru_index(blocks);
                assert(is_lru(blocks, v));
                assert(is_first_match(after, tag, v));
            }
        },
    }
}

/// A word that was written is read back: a read that follows a write to the
/// same address at once is a hit and returns the word.
pub proof fn lemma_read_after_write(c: CacheModel, addr: u8, data: u32)
    requires
        c.wf(),
    ensures
        c.write(addr, data).holds(addr),
        c.write(addr, data).word(addr) == data,
        c.write(addr, data).read_result(addr) == (data, true),
{
    lemma_written_holds(
        c.blocks(c.set_index(addr)),
        c.tag(addr),
        data,
        c.access_counter + 1,
        c.blocks_per_set,
    );
}

/// A read counts as exactly one hit or one miss, and takes neither counter
/// back.
pub proof fn lemma_read_counts(c: CacheModel, addr: u8)
    ensures
        c.read(addr).hits + c.read(addr).misses == c.hits + c.misses + 1,
        c.read(addr).hits >= c.hits,
        c.read(addr).misses >= c.misses,
        c.read(addr).hits == c.hits + 1 <==> c.read_result(addr).1,
{
}

/// A write counts neither as a hit nor as a miss.
pub proof fn lemma_write_counts(c: CacheModel, addr: u8, data: u32)
    ensures
        c.write(addr, data).hits == c.hits,
        c.write(addr, data).misses == c.misses,
{
}

/// Over any sequence of accesses the hit and miss counters never go down,
/// and together they grow by the number of reads; writes are not counted.
/// The clock grows by the number of accesses, reads and writes alike.
pub proof fn lemma_counters_count_reads(c: CacheModel, accesses: Seq<Access>)
    ensures
        c.run(accesses).hits >= c.hits,
        c.run(accesses).misses >= c.misses,
        c.run(accesses).hits + c.run(accesses).misses == c.hits + c.misses + reads(accesses),
        c.run(accesses).access_counter == c.access_counter + accesses.len(),
        reads(accesses) <= accesses.len(),
    decreases accesses.len(),
{
    if accesses.len() > 0 {
        lemma_counters_count_reads(c, accesses.drop_last());
        let d = c.run(accesses.drop_last());
        match accesses.last() {
            Access::Read { addr } => lemma_read_counts(d, addr),
            Access::Write { addr, data } => lemma_write_counts(d, addr, data),
        }
    }
}

/// In a cache that starts empty, hits and misses add up to the number of
/// reads that were made.
pub proof fn lemma_fresh_cache_counts_reads(
    num_sets: nat,
    blocks_per_set: nat,
    accesses: Seq<Access>,
)
    ensures
        ({
            let c = CacheModel::empty(num_sets, blocks_per_set).run(accesses);
            c.hits + c.misses == reads(accesses)
        }),
{
    lemma_counters_count_reads(CacheModel::empty(num_sets, blocks_per_set), accesses);
}

/// Every sequence of accesses leaves a well-formed cache well formed.
pub proof fn lemma_run_preserves_wf(c: CacheModel, accesses: Seq<Access>)
    requires
        c.wf(),
    ensures
        c.run(accesses).wf(),
    decreases accesses.len(),
{
    if accesses.len() > 0 {
        lemma_run_preserves_wf(c, accesses.drop_last());
        let d = c.run(accesses.drop_last());
        match accesses.last() {
            Access::Read { addr } => lemma_read_preserves_wf(d, addr),
            Access::Write { addr, data } => lemma_write_preserves_wf(d, addr, data),
        }
    }
}

/// A read changes no block but the stamp of the one it hits: what the cache
/// holds, and the word it holds for each address, stay as they were.
pub proof fn lemma_read_keeps_contents(c: CacheModel, addr: u8, other: u8)
    requires
        c.wf(),
    ensures
        c.read(addr).holds(other) == c.holds(other),
        c.read(addr).position(other) == c.position(other),
        c.holds(other) ==> c.read(addr).word(other) == c.word(other),
{
    let index = c.set_index(addr);
    let blocks = c.blocks(index);
    lemma_find(blocks, c.tag(addr));
    match c.position(addr) {
        Some(i) => {
            assert(is_first_match(blocks, c.tag(addr), i));
            if c.set_index(other) == index {
                let after = stamped(blocks, i, c.access_counter + 1);
                assert(c.read(addr).blocks(index) == after);
                lemma_find(blocks, c.tag(other));
                lemma_find(after, c.tag(other));
                match find(blocks, c.tag(other)) {
                    Some(j) => {
                        assert(is_first_match(blocks, c.tag(other), j));
                        assert(is_first_match(after, c.tag(other), j));
                    },
                    None => {
                        assert forall|j: int| 0 <= j < after.len() implies !(after[j].valid
                            && after[j].tag == c.tag(other)) by {
                            assert(!(blocks[j].valid && blocks[j].tag == c.tag(other)));
                        }
                    },
                }
            }
        },
        None => {},
    }
}

/// Distinct numbers below `bound`, none of them `hole`, are fewer than `bound`.
proof fn lemma_pigeonhole(values: Seq<int>, bound: int, hole: int)
    requires
        values.no_duplicates(),
        0 <= hole < bound,
        forall|i: int| 0 <= i < values.len() ==> 0 <= #[trigger] values[i] < bound && values[i] != hole,
    ensures
        values.len() < bound,
{
    values.unique_seq_to_set();
    lemma_int_range(0, bound);
    let room = set_int_range(0, bound).remove(hole);
    assert(values.to_set().subset_of(room)) by {
        assert forall|v: int| values.to_set().contains(v) implies room.contains(v) by {
            let i = choose|i: int| 0 <= i < values.len() && values[i] == v;
            assert(0 <= values[i] < bound);
        }
    }
    lemma_len_subset(values.to_set(), room);
}

/// What holds of a set after the first `n` of a run of writes under the
/// distinct tags `tags`, started when the clock showed `start`: each of the
/// `n` tags is in the set, with its word and the stamp of its write, and
/// every block that was stamped after `start` is one of them.
spec fn filled(blocks: Seq<CacheBlock>, tags: Seq<u8>, words: Seq<u32>, start: nat, n: nat) -> bool {
    &&& forall|i: int|
        #![trigger tags[i]]
        0 <= i < n ==> {
            let found = find(blocks, tags[i]);
            &&& found is Some
            &&& blocks[found.unwrap()].last_used == start + 1 + i
            &&& blocks[found.unwrap()].data == words[i]
        }
    &&& forall|p: int|
        #![trigger blocks[p]]
        0 <= p < blocks.len() && blocks[p].last_used > start ==> {
            let i = blocks[p].last_used - start - 1;
            &&& i < n
            &&& blocks[p].tag == tags[i]
        }
}

/// A set that holds more blocks than were written since `start` holds one
/// that was last used at `start` or before.
proof fn lemma_some_block_is_older(
    blocks: Seq<CacheBlock>,
    tags: Seq<u8>,
    words: Seq<u32>,
    capacity: nat,
    start: nat,
    n: nat,
) -> (p: int)
    requires
        set_wf(blocks, capacity, start + n),
        filled(blocks, tags, words, start, n),
        blocks.len() > n,
    ensures
        0 <= p < blocks.len(),
        blocks[p].last_used <= start,
{
    if forall|q: int| 0 <= q < blocks.len() ==> (#[trigger] blocks[q]).last_used > start {
        let stamps = Seq::new(blocks.len(), |q: int| blocks[q].last_used - start - 1);
        assert forall|q: int, r: int|
            0 <= q < stamps.len() && 0 <= r < stamps.len() && q != r implies stamps[q]
            != stamps[r] by {
            assert(blocks[q].last_used > start && blocks[r].last_used > start);
            if stamps[q] == stamps[r] {
                assert(blocks[q].tag == blocks[r].tag);
                if q < r {
                    assert(blocks[q].tag != blocks[r].tag);
                } else {
                    assert(blocks[r].tag != blocks[q].tag);
                }
            }
        }
        assert forall|q: int| 0 <= q < stamps.len() implies 0 <= #[trigger] stamps[q] < n + 1
            && stamps[q] != n by {
            assert(blocks[q].last_used > start);
        }
        lemma_pigeonhole(stamps, (n + 1) as int, n as int);
        assert(false);
        0
    } else {
        choose|q: int| 0 <= q < blocks.len() && !((#[trigger] blocks[q]).last_used > start)
    }
}

/// One more write of the run keeps [`filled`], as long as the run is no
/// longer than the set has room.
proof fn lemma_fill_step(
    blocks: Seq<CacheBlock>,
    tags: Seq<u8>,
    words: Seq<u32>,
    capacity: nat,
    start: nat,
    n: nat,
)
    requires
        set_wf(blocks, capacity, start + n),
        filled(blocks, tags, words, start, n),
        n < capacity,
        n < tags.len(),
        tags.len() == words.len(),
        tags.no_duplicates(),
        start + n + 1 <= u64::MAX,
    ensures
        filled(
            written(blocks, tags[n as int], words[n as int], start + n + 1, capacity),
            tags,
            words,
            start,
            n + 1,
        ),
{
    let tag = tags[n as int];
    let now = start + n + 1;
    let after = written(blocks, tag, words[n as int], now, capacity);
    lemma_written_wf(blocks, tag, words[n as int], capacity, start + n, now);
    lemma_find_in_wf_set(blocks, tag, capacity, start + n);
    lemma_find_in_wf_set(after, tag, capacity, now);
    lemma_find(blocks, tag);
    // The place where the new word went.
    let place: int = match find(blocks, tag) {
        Some(i) => i,
        None => if blocks.len() < capacity {
            blocks.len() as int
        } else {
            lru_index(blocks)
        },
    };
    if find(blocks, tag) is None && blocks.len() >= capacity {
        lemma_lru_index(blocks);
        assert(is_lru(blocks, place));
    }
    assert(0 <= place < after.len());
    assert(after[place].tag == tag && after[place].last_used == now && after[place].data
        == words[n as int]);
    assert forall|q: int| 0 <= q < after.len() && q != place implies after[q] == blocks[q] by {}
    // The block that was there before, if any, was not written in this run.
    if place < blocks.len() {
        if blocks[place].last_used > start {
            let i = blocks[place].last_used - start - 1;
            assert(blocks[place].tag == tags[i]);
            if find(blocks, tag) is Some {
                assert(tags[i] == tags[n as int]);
            } else {
                let older = lemma_some_block_is_older(blocks, tags, words, capacity, start, n);
                assert(blocks[place].last_used <= blocks[older].last_used);
            }
            assert(false);
        }
    }
    assert forall|i: int| #![trigger tags[i]] 0 <= i < n + 1 implies {
        let found = find(after, tags[i]);
        &&& found is Some
        &&& after[found.unwrap()].last_used == start + 1 + i
        &&& after[found.unwrap()].data == words[i]
    } by {
        lemma_find_in_wf_set(after, tags[i], capacity, now);
        if i == n {
            assert(find(after, tags[i]) == Some(place));
        } else {
            lemma_find_in_wf_set(blocks, tags[i], capacity, start + n);
            let q = find(blocks, tags[i]).unwrap();
            assert(blocks[q].last_used > start);
            assert(q != place);
            assert(after[q] == blocks[q]);
            assert(find(after, tags[i]) == Some(q));
        }
    }
    assert forall|q: int|
        #![trigger after[q]]
        0 <= q < after.len() && after[q].last_used > start implies {
        let i = after[q].last_used - start - 1;
        &&& i < n + 1
        &&& after[q].tag == tags[i]
    } by {
        if q != place {
            assert(after[q] == blocks[q]);
            assert(blocks[q].last_used > start);
        }
    }
}

/// When as many writes were made as the set has room, the next write under
/// a new tag takes the place of the first of them.
proof fn lemma_fill_evicts_first(
    blocks: Seq<CacheBlock>,
    tags: Seq<u8>,
    words: Seq<u32>,
    capacity: nat,
    start: nat,
)
    requires
        capacity > 0,
        set_wf(blocks, capacity, start + capacity),
        filled(blocks, tags, words, start, capacity),
        tags.len() == capacity + 1,
        tags.len() == words.len(),
        tags.no_duplicates(),
        start + capacity + 1 <= u64::MAX,
    ensures
        ({
            let after = written(
                blocks,
                tags[capacity as int],
                words[capacity as int],
                start + capacity + 1,
                capacity,
            );
            &&& find(after, tags[0]) is None
            &&& forall|i: int|
                #![trigger tags[i]]
                1 <= i <= capacity ==> find(after, tags[i]) is Some && after[find(
                    after,
                    tags[i],
                ).unwrap()].data == words[i]
        }),
{
    let tag = tags[capacity as int];
    let now = start + capacity + 1;
    let after = written(blocks, tag, words[capacity as int], now, capacity);
    let places = Seq::new(capacity, |i: int| find(blocks, tags[i]).unwrap());
    assert forall|i: int| 0 <= i < capacity implies 0 <= #[trigger] places[i] < blocks.len()
        && blocks[places[i]].tag == tags[i] by {
        lemma_find_in_wf_set(blocks, tags[i], capacity, start + capacity);
        assert(find(blocks, tags[i]) is Some);
    }
    assert(places.no_duplicates()) by {
        assert forall|i: int, j: int|
            0 <= i < places.len() && 0 <= j < places.len() && i != j implies places[i]
            != places[j] by {
            assert(blocks[places[i]].tag == tags[i]);
            assert(blocks[places[j]].tag == tags[j]);
        }
    }
    // The set is full, and all its blocks were written in this run.
    assert forall|q: int| 0 <= q < blocks.len() implies (#[trigger] blocks[q]).last_used
        > start by {
        if blocks[q].last_used <= start {
            assert forall|i: int| 0 <= i < places.len() implies 0 <= #[trigger] places[i]
                < blocks.len() && places[i] != q by {
                assert(blocks[places[i]].last_used == start + 1 + i);
            }
            lemma_pigeonhole(places, blocks.len() as int, q);
        }
    }
    assert(blocks.len() == capacity) by {
        if blocks.len() < capacity {
            // One more place than there are blocks, so that none is left out.
            assert forall|i: int| 0 <= i < places.len() implies 0 <= #[trigger] places[i]
                < blocks.len() + 1 && places[i] != blocks.len() by {}
            lemma_pigeonhole(places, (blocks.len() + 1) as int, blocks.len() as int);
        }
    }
    // The new tag is not in the set.
    lemma_find_in_wf_set(blocks, tag, capacity, start + capacity);
    if find(blocks, tag) is Some {
        let q = find(blocks, tag).unwrap();
        assert(blocks[q].last_used > start);
        let i = blocks[q].last_used - start - 1;
        assert(tags[i] == tags[capacity as int]);
        assert(false);
    }
    // The victim is the block of the first write.
    let first = places[0];
    assert(blocks[first].last_used == start + 1);
    assert(is_lru(blocks, first)) by {
        assert forall|q: int| 0 <= q < blocks.len() implies blocks[first].last_used
            <= blocks[q].last_used by {
            assert(blocks[q].last_used > start);
        }
        assert forall|q: int| 0 <= q < first implies blocks[first].last_used
            < blocks[q].last_used by {
            assert(blocks[q].last_used > start);
            if blocks[q].last_used == start + 1 {
                assert(blocks[q].tag == tags[0]);
                assert(blocks[q].tag != blocks[first].tag);
            }
        }
    }
    lemma_lru_index(blocks);
    assert(lru_index(blocks) == first);
    lemma_written_wf(blocks, tag, words[capacity as int], capacity, start + capacity, now);
    assert forall|q: int| 0 <= q < after.len() && q != first implies after[q] == blocks[q] by {}
    assert(find(after, tags[0]) is None) by {
        lemma_find_in_wf_set(after, tags[0], capacity, now);
        if find(after, tags[0]) is Some {
            let q = find(after, tags[0]).unwrap();
            assert(find(after, tags[0]) == Some(q));
            assert(0 <= q < after.len() && after[q].tag == tags[0]);
            assert(after[first].tag == tag);
            if q == first {
                assert(tags[0] == tags[capacity as int]);
            } else {
                assert(after[q] == blocks[q]);
                assert(blocks[q].tag == tags[0]);
                if q < first {
                    assert(blocks[q].tag != blocks[first].tag);
                } else {
                    assert(blocks[first].tag != blocks[q].tag);
                }
            }
            assert(false);
        }
    }
    assert forall|i: int| #![trigger tags[i]] 1 <= i <= capacity implies find(after, tags[i])
        is Some && after[find(after, tags[i]).unwrap()].data == words[i] by {
        lemma_find_in_wf_set(after, tags[i], capacity, now);
        if i == capacity {
            assert(0 <= first < after.len() && after[first].tag == tags[i]);
            assert(find(after, tags[i]) == Some(first));
        } else {
            let q = places[i];
            assert(q != first);
            assert(after[q] == blocks[q]);
            assert(find(after, tags[i]) == Some(q));
        }
    }
}

/// The tags of `addrs` in a cache of `num_sets` sets.
spec fn tags_of(addrs: Seq<u8>, num_sets: nat) -> Seq<u8> {
    Seq::new(addrs.len(), |i: int| tag_of(addrs[i], num_sets))
}

/// The first `n` writes of a run to one set leave the set [`filled`].
proof fn lemma_after_writes(c: CacheModel, addrs: Seq<u8>, words: Seq<u32>, n: nat)
    requires
        c.wf(),
        addrs.len() > 0,
        words.len() == addrs.len(),
        n <= c.blocks_per_set,
        n <= addrs.len(),
        forall|i: int, j: int| 0 <= i < j < addrs.len() ==> addrs[i] != addrs[j],
        forall|i: int|
            0 <= i < addrs.len() ==> c.set_index(#[trigger] addrs[i]) == c.set_index(addrs[0]),
        c.access_counter + n <= u64::MAX,
    ensures
        ({
            let d = c.after_writes(addrs, words, n);
            &&& d.wf()
            &&& d.num_sets == c.num_sets
            &&& d.blocks_per_set == c.blocks_per_set
            &&& d.access_counter == c.access_counter + n
            &&& filled(
                d.blocks(c.set_index(addrs[0])),
                tags_of(addrs, c.num_sets),
                words,
                c.access_counter,
                n,
            )
        }),
        tags_of(addrs, c.num_sets).no_duplicates(),
    decreases n,
{
    let tags = tags_of(addrs, c.num_sets);
    let index = c.set_index(addrs[0]);
    assert(tags.no_duplicates()) by {
        assert forall|i: int, j: int|
            0 <= i < tags.len() && 0 <= j < tags.len() && i != j implies tags[i] != tags[j] by {
            if tags[i] == tags[j] {
                lemma_tag_and_set_determine_address(addrs[i], addrs[j], c.num_sets);
                if i < j {
                    assert(addrs[i] != addrs[j]);
                } else {
                    assert(addrs[j] != addrs[i]);
                }
            }
        }
    }
    if n == 0 {
        lemma_blocks_wf(c, index);
        let blocks = c.blocks(index);
        assert forall|p: int|
            #![trigger blocks[p]]
            0 <= p < blocks.len() && blocks[p].last_used > c.access_counter implies false by {}
    } else {
        let m = (n - 1) as nat;
        lemma_after_writes(c, addrs, words, m);
        let d = c.after_writes(addrs, words, m);
        lemma_blocks_wf(d, index);
        lemma_fill_step(d.blocks(index), tags, words, c.blocks_per_set, c.access_counter, m);
        lemma_write_preserves_wf(d, addrs[m as int], words[m as int]);
        assert(d.set_index(addrs[m as int]) == index);
        assert(d.tag(addrs[m as int]) == tags[m as int]);
    }
}

/// Least-recently-used replacement: after writes to one more distinct
/// address of one set than the set has room for, made in order, the address
/// that was written first is no longer cached, and every other one is. A
/// read of the first is a miss; a read of any other is a hit and returns the
/// word that was written to it.
pub proof fn lemma_lru_eviction(c: CacheModel, addrs: Seq<u8>, words: Seq<u32>)
    requires
        c.wf(),
        addrs.len() == c.blocks_per_set + 1,
        words.len() == addrs.len(),
        forall|i: int, j: int| 0 <= i < j < addrs.len() ==> addrs[i] != addrs[j],
        forall|i: int|
            0 <= i < addrs.len() ==> c.set_index(#[trigger] addrs[i]) == c.set_index(addrs[0]),
        c.access_counter + addrs.len() <= u64::MAX,
    ensures
        !c.after_writes(addrs, words, addrs.len()).holds(addrs[0]),
        c.after_writes(addrs, words, addrs.len()).read_result(addrs[0]) == (0u32, false),
        forall|i: int|
            #![trigger addrs[i]]
            1 <= i < addrs.len() ==> c.after_writes(addrs, words, addrs.len()).read_result(
                addrs[i],
            ) == (words[i], true),
{
    let capacity = c.blocks_per_set;
    let tags = tags_of(addrs, c.num_sets);
    let index = c.set_index(addrs[0]);
    lemma_after_writes(c, addrs, words, capacity);
    let d = c.after_writes(addrs, words, capacity);
    let e = c.after_writes(addrs, words, addrs.len());
    assert(e == d.write(addrs[capacity as int], words[capacity as int]));
    lemma_blocks_wf(d, index);
    lemma_fill_evicts_first(d.blocks(index), tags, words, capacity, c.access_counter);
    assert(d.set_index(addrs[capacity as int]) == index);
    assert(d.tag(addrs[capacity as int]) == tags[capacity as int]);
    assert(e.blocks(index) == written(
        d.blocks(index),
        tags[capacity as int],
        words[capacity as int],
        c.access_counter + capacity + 1,
        capacity,
    ));
    assert(e.tag(addrs[0]) == tags[0]);
    assert forall|i: int| #![trigger addrs[i]] 1 <= i < addrs.len() implies e.read_result(
        addrs[i],
    ) == (words[i], true) by {
        assert(e.tag(addrs[i]) == tags[i]);
        assert(e.set_index(addrs[i]) == index);
    }
}

} // verus!
