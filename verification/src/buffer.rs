//! The buffer cache core: buffer headers, the LRU free list, the
//! hash-bucketed lookup index, and the engine that ties them together with
//! the classic acquire/release (`getblk`/`brelse`) algorithm.
//!
//! Headers live in a fixed arena (the pool) owned by the engine; the free
//! list and the hash queues hold slot indices into that arena, never owning
//! references, so all mutation goes through the pool.

use vstd::prelude::*;

use crate::disk::DiskDriver;

verus! {

/// The states a buffer header moves through. A header starts `Empty`, is
/// `Locked` while exactly one caller holds it, becomes `Unlocked` when
/// released clean, and `DelayedWriteToDisk` when released dirty; a dirty
/// header must be flushed before its slot is re-keyed to a new identity.
#[derive(Clone, Copy, PartialEq, Eq, Structural, Debug)]
pub enum BufferStatus {
    Empty,
    Locked,
    Unlocked,
    DelayedWriteToDisk,
}

/// One cache slot: the identity of the block it holds, its state, and the
/// cached payload. The identity is meaningful only when the status is not
/// `Empty`.
pub struct BufferHeader {
    pub device_num: u64,
    pub block_num: u64,
    pub status: BufferStatus,
    pub data: Option<Vec<u8>>,
}

impl BufferHeader {
    /// The cached payload as a byte sequence; an absent payload reads as
    /// empty.
    pub open spec fn payload(self) -> Seq<u8> {
        match self.data {
            Some(p) => p@,
            None => Seq::empty(),
        }
    }

    /// The device number of the block this buffer holds.
    pub fn get_device_num(&self) -> (r: u64)
        ensures
            r == self.device_num,
    {
        self.device_num
    }

    /// The block number of the block this buffer holds.
    pub fn get_block_num(&self) -> (r: u64)
        ensures
            r == self.block_num,
    {
        self.block_num
    }

    /// The identity of the block this buffer holds, as `(device_num,
    /// block_num)`.
    pub fn get_nums(&self) -> (r: (u64, u64))
        ensures
            r == (self.device_num, self.block_num),
    {
        (self.get_device_num(), self.get_block_num())
    }
}

impl Default for BufferHeader {
    /// By default a buffer is empty and holds no data from any block or
    /// device.
    fn default() -> (r: Self)
        ensures
            r.device_num == 0,
            r.block_num == 0,
            r.status is Empty,
            r.data is None,
    {
        BufferHeader { device_num: 0, block_num: 0, status: BufferStatus::Empty, data: None }
    }
}

/// Whether slot `s` of the pool currently holds the block `(device_num,
/// block_num)`. An `Empty` header matches nothing: its identity fields are
/// meaningless.
pub open spec fn id_matches(pool: Seq<BufferHeader>, s: usize, device_num: u64, block_num: u64) -> bool {
    &&& s < pool.len()
    &&& !(pool[s as int].status is Empty)
    &&& pool[s as int].device_num == device_num
    &&& pool[s as int].block_num == block_num
}

/// The position of the first slot in `entries` whose header matches
/// `(device_num, block_num)`, if any.
pub open spec fn find_match(
    pool: Seq<BufferHeader>,
    entries: Seq<usize>,
    device_num: u64,
    block_num: u64,
) -> Option<int>
    decreases entries.len(),
{
    if entries.len() == 0 {
        None
    } else if id_matches(pool, entries[0], device_num, block_num) {
        Some(0)
    } else {
        match find_match(pool, entries.drop_first(), device_num, block_num) {
            Some(i) => Some(i + 1),
            None => None,
        }
    }
}

/// `find_match` returns the first matching position: a match, with no match
/// before it, or `None` exactly when nothing matches.
pub proof fn lemma_find_match_props(
    pool: Seq<BufferHeader>,
    entries: Seq<usize>,
    device_num: u64,
    block_num: u64,
)
    ensures
        match find_match(pool, entries, device_num, block_num) {
            None => forall|j: int|
                0 <= j < entries.len() ==> !id_matches(pool, entries[j], device_num, block_num),
            Some(i) => 0 <= i < entries.len() && id_matches(pool, entries[i], device_num, block_num)
                && forall|j: int| 0 <= j < i ==> !id_matches(pool, entries[j], device_num, block_num),
        },
    decreases entries.len(),
{
    if entries.len() == 0 {
    } else if id_matches(pool, entries[0], device_num, block_num) {
    } else {
        lemma_find_match_props(pool, entries.drop_first(), device_num, block_num);
        assert forall|j: int| 1 <= j < entries.len() implies entries.drop_first()[j - 1]
            == entries[j] by {}
    }
}

/// A first match at `i` pins `find_match` down to `Some(i)`.
pub proof fn lemma_find_match_at(
    pool: Seq<BufferHeader>,
    entries: Seq<usize>,
    device_num: u64,
    block_num: u64,
    i: int,
)
    requires
        0 <= i < entries.len(),
        id_matches(pool, entries[i], device_num, block_num),
        forall|j: int| 0 <= j < i ==> !id_matches(pool, entries[j], device_num, block_num),
    ensures
        find_match(pool, entries, device_num, block_num) == Some(i),
{
    lemma_find_match_props(pool, entries, device_num, block_num);
    match find_match(pool, entries, device_num, block_num) {
        None => {
            assert(id_matches(pool, entries[i], device_num, block_num));
        },
        Some(k) => {
            if k < i {
                assert(!id_matches(pool, entries[k], device_num, block_num));
            }
            if i < k {
                assert(!id_matches(pool, entries[i], device_num, block_num));
            }
        },
    }
}

/// No match anywhere pins `find_match` down to `None`.
pub proof fn lemma_find_match_none(
    pool: Seq<BufferHeader>,
    entries: Seq<usize>,
    device_num: u64,
    block_num: u64,
)
    requires
        forall|j: int| 0 <= j < entries.len() ==> !id_matches(pool, entries[j], device_num, block_num),
    ensures
        find_match(pool, entries, device_num, block_num) is None,
{
    lemma_find_match_props(pool, entries, device_num, block_num);
    match find_match(pool, entries, device_num, block_num) {
        None => {},
        Some(k) => {
            assert(!id_matches(pool, entries[k], device_num, block_num));
        },
    }
}

/// Scans `entries` from the front and returns the position of the first
/// slot whose header in `pool` holds the block `(device_num, block_num)`.
fn scan_chain(pool: &Vec<BufferHeader>, entries: &Vec<usize>, device_num: u64, block_num: u64) -> (r:
    Option<usize>)
    ensures
        match find_match(pool@, entries@, device_num, block_num) {
            None => r is None,
            Some(i) => r matches Some(p) && p == i && 0 <= i < entries@.len(),
        },
{
    let mut i: usize = 0;
    while i < entries.len()
        invariant
            i <= entries@.len(),
            forall|j: int| 0 <= j < i ==> !id_matches(pool@, entries@[j], device_num, block_num),
        decreases entries@.len() - i,
    {
        let s = entries[i];
        if s < pool.len() {
            let h = &pool[s];
            let empty = match h.status {
                BufferStatus::Empty => true,
                _ => false,
            };
            if !empty && h.device_num == device_num && h.block_num == block_num {
                proof {
                    lemma_find_match_at(pool@, entries@, device_num, block_num, i as int);
                }
                return Some(i);
            }
        }
        i = i + 1;
    }
    proof {
        lemma_find_match_none(pool@, entries@, device_num, block_num);
    }
    None
}

/// The list of buffers not held by any caller, least recently released
/// first, as slot indices into the engine's pool.
pub struct FreeList {
    pub my_list: Vec<usize>,
}

impl FreeList {
    pub fn new() -> (r: FreeList)
        ensures
            r.my_list@ == Seq::<usize>::empty(),
    {
        let r = FreeList { my_list: Vec::new() };
        proof {
            assert(r.my_list@ =~= Seq::<usize>::empty());
        }
        r
    }

    /// Appends a buffer as the most recently released. A buffer still held
    /// `Locked` must not be freed, so it is rejected here.
    pub fn push(&mut self, pool: &Vec<BufferHeader>, buffer: usize)
        requires
            buffer < pool@.len(),
            !(pool@[buffer as int].status is Locked),
        ensures
            final(self).my_list@ == old(self).my_list@.push(buffer),
    {
        self.my_list.push(buffer);
    }

    /// Removes and returns the least recently released buffer, if any.
    pub fn pop(&mut self) -> (r: Option<usize>)
        ensures
            old(self).my_list@.len() == 0 ==> r is None && final(self).my_list@ == old(self).my_list@,
            old(self).my_list@.len() > 0 ==> r == Some(old(self).my_list@[0])
                && final(self).my_list@ == old(self).my_list@.drop_first(),
    {
        if self.my_list.len() == 0 {
            None
        } else {
            let v = self.my_list.remove(0);
            proof {
                assert(old(self).my_list@.remove(0) =~= old(self).my_list@.drop_first());
            }
            Some(v)
        }
    }

    /// Removes the first entry whose header in `pool` holds the block
    /// `buffer_nums`; a no-op when no entry matches (absence is valid: the
    /// buffer may already have been claimed).
    pub fn remove(&mut self, pool: &Vec<BufferHeader>, buffer_nums: (u64, u64))
        ensures
            match find_match(pool@, old(self).my_list@, buffer_nums.0, buffer_nums.1) {
                None => final(self).my_list@ == old(self).my_list@,
                Some(i) => final(self).my_list@ == old(self).my_list@.remove(i),
            },
    {
        let found = scan_chain(pool, &self.my_list, buffer_nums.0, buffer_nums.1);
        match found {
            Some(i) => {
                self.my_list.remove(i);
            },
            None => {},
        }
    }

    /// Whether the free list holds no buffers.
    pub fn is_empty(&self) -> (r: bool)
        ensures
            r == (self.my_list@.len() == 0),
    {
        self.my_list.len() == 0
    }
}

/// The bucket that the identity `(device_num, block_num)` hashes to: the sum
/// of the two identifiers, reduced modulo the number of queues.
pub open spec fn bucket_index_spec(device_num: u64, block_num: u64, number_of_queues: u64) -> int
    recommends
        number_of_queues > 0,
{
    (device_num + block_num) % (number_of_queues as int)
}

/// A fixed array of queues indexed by a hash of the block identity. Each
/// queue is a chain of slot indices into the engine's pool; lookups scan
/// only the target queue.
pub struct BufferHashQueue {
    pub number_of_queues: u64,
    pub my_queues: Vec<Vec<usize>>,
}

impl BufferHashQueue {
    /// The chains, one sequence of slots per queue.
    pub open spec fn buckets(self) -> Seq<Seq<usize>> {
        self.my_queues@.map_values(|q: Vec<usize>| q@)
    }

    /// The queue array matches the fixed queue count, which fits the
    /// machine's index range.
    pub open spec fn wf(self) -> bool {
        &&& self.number_of_queues > 0
        &&& self.number_of_queues <= usize::MAX
        &&& self.my_queues@.len() == self.number_of_queues
    }

    /// Creates `number_of_queues` empty queues; the count is fixed for the
    /// structure's lifetime.
    pub fn new(number_of_queues: u64) -> (r: BufferHashQueue)
        requires
            number_of_queues > 0,
            number_of_queues <= usize::MAX,
        ensures
            r.wf(),
            r.number_of_queues == number_of_queues,
            forall|q: int| 0 <= q < number_of_queues ==> r.buckets()[q] == Seq::<usize>::empty(),
    {
        let mut my_queues: Vec<Vec<usize>> = Vec::new();
        let mut i: u64 = 0;
        while i < number_of_queues
            invariant
                i <= number_of_queues,
                my_queues@.len() == i,
                forall|q: int| 0 <= q < i ==> (#[trigger] my_queues@[q])@ == Seq::<usize>::empty(),
            decreases number_of_queues - i,
        {
            let fresh: Vec<usize> = Vec::new();
            proof {
                assert(fresh@ =~= Seq::<usize>::empty());
            }
            my_queues.push(fresh);
            i = i + 1;
        }
        BufferHashQueue { number_of_queues, my_queues }
    }

    /// Hashes a block identity to its queue index.
    pub fn hash_nums(&self, device_num: u64, block_num: u64) -> (r: u64)
        requires
            self.number_of_queues > 0,
        ensures
            r == bucket_index_spec(device_num, block_num, self.number_of_queues),
            r < self.number_of_queues,
    {
        let sum: u128 = device_num as u128 + block_num as u128;
        (sum % (self.number_of_queues as u128)) as u64
    }

    /// Hashes a buffer header by the identity of the block it holds.
    pub fn hash_header(&self, buffer_to_hash: &BufferHeader) -> (r: u64)
        requires
            self.number_of_queues > 0,
        ensures
            r == bucket_index_spec(
                buffer_to_hash.device_num,
                buffer_to_hash.block_num,
                self.number_of_queues,
            ),
            r < self.number_of_queues,
    {
        self.hash_nums(buffer_to_hash.device_num, buffer_to_hash.block_num)
    }

    /// Looks the block `(device_num, block_num)` up, scanning only its own
    /// queue, and returns the first slot whose header in `pool` holds it.
    /// The result is a function of the queues and the pool alone, so two
    /// lookups without an intervening change return the same slot.
    pub fn get_buffer(&self, pool: &Vec<BufferHeader>, device_num: u64, block_num: u64) -> (r:
        Option<usize>)
        requires
            self.wf(),
        ensures
            ({
                let chain = self.buckets()[bucket_index_spec(
                    device_num,
                    block_num,
                    self.number_of_queues,
                )];
                match find_match(pool@, chain, device_num, block_num) {
                    None => r is None,
                    Some(i) => r == Some(chain[i]),
                }
            }),
    {
        let index = self.hash_nums(device_num, block_num);
        let queue_to_search = &self.my_queues[index as usize];
        proof {
            assert(self.buckets()[index as int] == queue_to_search@);
        }
        let found = scan_chain(pool, queue_to_search, device_num, block_num);
        match found {
            Some(i) => Some(queue_to_search[i]),
            None => None,
        }
    }

    /// Appends slot `buffer_to_add` to the queue that the identity of its
    /// header in `pool` hashes to.
    pub fn add_buffer(&mut self, pool: &Vec<BufferHeader>, buffer_to_add: usize)
        requires
            old(self).wf(),
            buffer_to_add < pool@.len(),
        ensures
            final(self).wf(),
            final(self).number_of_queues == old(self).number_of_queues,
            ({
                let h = bucket_index_spec(
                    pool@[buffer_to_add as int].device_num,
                    pool@[buffer_to_add as int].block_num,
                    old(self).number_of_queues,
                );
                final(self).buckets() == old(self).buckets().update(
                    h,
                    old(self).buckets()[h].push(buffer_to_add),
                )
            }),
    {
        let index = self.hash_nums(pool[buffer_to_add].device_num, pool[buffer_to_add].block_num);
        let queue = &mut self.my_queues[index as usize];
        queue.push(buffer_to_add);
        proof {
            assert(self.buckets() =~= old(self).buckets().update(
                index as int,
                old(self).buckets()[index as int].push(buffer_to_add),
            ));
        }
    }

    /// Removes the first entry of the target queue whose header in `pool`
    /// holds the block `(device_num, block_num)`; a no-op when none matches.
    pub fn remove(&mut self, pool: &Vec<BufferHeader>, device_num: u64, block_num: u64)
        requires
            old(self).wf(),
        ensures
            final(self).wf(),
            final(self).number_of_queues == old(self).number_of_queues,
            ({
                let h = bucket_index_spec(device_num, block_num, old(self).number_of_queues);
                let chain = old(self).buckets()[h];
                match find_match(pool@, chain, device_num, block_num) {
                    None => final(self).buckets() == old(self).buckets(),
                    Some(i) => final(self).buckets() == old(self).buckets().update(
                        h,
                        chain.remove(i),
                    ),
                }
            }),
    {
        let index = self.hash_nums(device_num, block_num);
        proof {
            assert(self.buckets()[index as int] == self.my_queues@[index as int]@);
        }
        let found = scan_chain(pool, &self.my_queues[index as usize], device_num, block_num);
        match found {
            Some(i) => {
                let queue = &mut self.my_queues[index as usize];
                queue.remove(i);
                proof {
                    assert(self.buckets() =~= old(self).buckets().update(
                        index as int,
                        old(self).buckets()[index as int].remove(i as int),
                    ));
                }
            },
            None => {
                proof {
                    assert(self.buckets() =~= old(self).buckets());
                }
            },
        }
    }
}

/// Sets the status of the header in slot `i`, leaving its identity and data
/// as they were.
fn set_status(pool: &mut Vec<BufferHeader>, i: usize, status: BufferStatus)
    requires
        i < old(pool)@.len(),
    ensures
        final(pool)@ == old(pool)@.update(
            i as int,
            BufferHeader {
                device_num: old(pool)@[i as int].device_num,
                block_num: old(pool)@[i as int].block_num,
                status: status,
                data: old(pool)@[i as int].data,
            },
        ),
{
    let h = &mut pool[i];
    h.status = status;
}

/// Re-keys the header in slot `i` to a new block identity and locks it; the
/// cached bytes stay in place (their content is the caller's to refill).
fn rekey_and_lock(pool: &mut Vec<BufferHeader>, i: usize, device_num: u64, block_num: u64)
    requires
        i < old(pool)@.len(),
    ensures
        final(pool)@ == old(pool)@.update(
            i as int,
            BufferHeader {
                device_num: device_num,
                block_num: block_num,
                status: BufferStatus::Locked,
                data: old(pool)@[i as int].data,
            },
        ),
{
    let h = &mut pool[i];
    h.device_num = device_num;
    h.block_num = block_num;
    h.status = BufferStatus::Locked;
}

/// Two pools that agree on which headers match an identity give the same
/// first match.
pub proof fn lemma_find_match_same(
    pool1: Seq<BufferHeader>,
    pool2: Seq<BufferHeader>,
    entries: Seq<usize>,
    device_num: u64,
    block_num: u64,
)
    requires
        forall|j: int|
            0 <= j < entries.len() ==> (id_matches(pool1, #[trigger] entries[j], device_num, block_num)
                <==> id_matches(pool2, entries[j], device_num, block_num)),
    ensures
        find_match(pool1, entries, device_num, block_num) == find_match(
            pool2,
            entries,
            device_num,
            block_num,
        ),
{
    lemma_find_match_props(pool1, entries, device_num, block_num);
    match find_match(pool1, entries, device_num, block_num) {
        None => {
            lemma_find_match_none(pool2, entries, device_num, block_num);
        },
        Some(i) => {
            lemma_find_match_at(pool2, entries, device_num, block_num, i);
        },
    }
}

/// A header as it stands once its delayed write has been flushed: same
/// block, same data, no longer dirty.
pub open spec fn after_flush(h: BufferHeader) -> BufferHeader {
    BufferHeader {
        device_num: h.device_num,
        block_num: h.block_num,
        status: BufferStatus::Unlocked,
        data: h.data,
    }
}

/// What one call of `get_block` decided. The engine never blocks by itself:
/// when the caller must wait, it says which event would make a retry
/// worthwhile, and the caller suspends and calls again.
#[derive(Clone, Copy, PartialEq, Eq, Structural, Debug)]
pub enum GetBlockOutcome {
    /// The slot of the header now held `Locked` for the caller.
    Acquired(usize),
    /// The block is cached but another caller holds it: wait until a buffer
    /// for this identity becomes free.
    WaitForBlock,
    /// The block is not cached and no buffer is free: wait until any buffer
    /// becomes free.
    WaitForAnyBuffer,
}

/// The engine: a fixed pool of buffer headers, the free list and hash
/// queues that index into it, and the disk driver that dirty buffers are
/// flushed through before their slot is reused.
pub struct BufferSystem {
    pub pool: Vec<BufferHeader>,
    pub free_list: FreeList,
    pub hash_queue: BufferHashQueue,
    pub disk_driver: DiskDriver,
}

impl BufferSystem {
    /// The free list as a sequence of pool slots, oldest release first.
    pub open spec fn fl(self) -> Seq<usize> {
        self.free_list.my_list@
    }

    /// The fixed number of hash queues.
    pub open spec fn nb(self) -> u64 {
        self.hash_queue.number_of_queues
    }

    /// The hash queue chains.
    pub open spec fn buckets(self) -> Seq<Seq<usize>> {
        self.hash_queue.buckets()
    }

    /// The queue that the identity `(device_num, block_num)` belongs in.
    pub open spec fn home_bucket(self, device_num: u64, block_num: u64) -> int {
        bucket_index_spec(device_num, block_num, self.nb())
    }

    /// The identity of the block that slot `s` holds.
    pub open spec fn slot_id(self, s: usize) -> (u64, u64)
        recommends
            s < self.pool@.len(),
    {
        (self.pool@[s as int].device_num, self.pool@[s as int].block_num)
    }

    /// Whether slot `s` is a member of the free list.
    pub open spec fn fl_has_slot(self, s: usize) -> bool {
        exists|i: int| 0 <= i < self.fl().len() && self.fl()[i] == s
    }

    /// Whether slot `s` is a member of its own hash queue.
    pub open spec fn idx_has_slot(self, s: usize) -> bool
        recommends
            s < self.pool@.len(),
    {
        let chain = self.buckets()[self.home_bucket(
            self.pool@[s as int].device_num,
            self.pool@[s as int].block_num,
        )];
        exists|j: int| 0 <= j < chain.len() && chain[j] == s
    }

    /// The slot the hash index maps `(device_num, block_num)` to, if any:
    /// the first matching entry of the identity's own queue.
    pub open spec fn lookup_spec(self, device_num: u64, block_num: u64) -> Option<usize> {
        let chain = self.buckets()[self.home_bucket(device_num, block_num)];
        match find_match(self.pool@, chain, device_num, block_num) {
            Some(i) => Some(chain[i]),
            None => None,
        }
    }

    /// One entry of one hash queue.
    pub open spec fn bucket_entry(self, q: int, j: int) -> usize {
        self.buckets()[q][j]
    }

    /// Whether `(q, j)` addresses an entry of a hash queue.
    pub open spec fn valid_pos(self, q: int, j: int) -> bool {
        0 <= q < self.buckets().len() && 0 <= j < self.buckets()[q].len()
    }

    /// The entry at `(q, j)` names a real slot, its header holds a block,
    /// and it sits in the queue its identity hashes to.
    pub open spec fn idx_entry_ok(self, q: int, j: int) -> bool {
        let s = self.bucket_entry(q, j);
        &&& s < self.pool@.len()
        &&& !(self.pool@[s as int].status is Empty)
        &&& self.home_bucket(self.pool@[s as int].device_num, self.pool@[s as int].block_num) == q
    }

    /// The engine's structural invariant. Every constructor establishes it
    /// and every operation preserves it:
    /// - the pool is a fixed arena and both indices hold slots inside it;
    /// - a `Locked` header is never on the free list, and every header not
    ///   `Locked` is on it exactly once;
    /// - a header is in the hash index exactly when it holds a block, keyed
    ///   by its current identity in that identity's own queue, and no two
    ///   indexed headers hold the same block;
    /// - an `Empty` header holds no data.
    pub open spec fn wf(self) -> bool {
        &&& self.hash_queue.wf()
        &&& self.pool@.len() <= usize::MAX
        &&& forall|i: int|
            0 <= i < self.fl().len() ==> (#[trigger] self.fl()[i]) < self.pool@.len()
        &&& forall|i: int|
            0 <= i < self.fl().len() ==> !(self.pool@[#[trigger] self.fl()[i] as int].status
                is Locked)
        &&& forall|i: int, j: int|
            0 <= i < j < self.fl().len() ==> self.fl()[i] != self.fl()[j]
        &&& forall|s: int|
            0 <= s < self.pool@.len() && !((#[trigger] self.pool@[s]).status is Locked)
                ==> self.fl_has_slot(s as usize)
        &&& forall|q: int, j: int|
            #![trigger self.bucket_entry(q, j)]
            self.valid_pos(q, j) ==> self.idx_entry_ok(q, j)
        &&& forall|q: int, j1: int, j2: int|
            #![trigger self.bucket_entry(q, j1), self.bucket_entry(q, j2)]
            self.valid_pos(q, j1) && self.valid_pos(q, j2) && j1 != j2 ==> self.slot_id(
                self.bucket_entry(q, j1),
            ) != self.slot_id(self.bucket_entry(q, j2))
        &&& forall|s: int|
            0 <= s < self.pool@.len() && !((#[trigger] self.pool@[s]).status is Empty)
                ==> self.idx_has_slot(s as usize)
        &&& forall|s: int|
            0 <= s < self.pool@.len() && (#[trigger] self.pool@[s]).status is Empty
                ==> self.pool@[s].data is None
    }

    /// Creates an engine with `number_of_queues` hash queues and
    /// `number_of_buffers` buffers. Every buffer starts `Empty` and on the
    /// free list; both counts are fixed for the engine's lifetime, and a
    /// pool of zero buffers is rejected here rather than discovered at
    /// acquire time.
    pub fn new(number_of_queues: u64, number_of_buffers: u64) -> (r: BufferSystem)
        requires
            number_of_queues > 0,
            number_of_queues <= usize::MAX,
            number_of_buffers > 0,
            number_of_buffers <= usize::MAX,
        ensures
            r.wf(),
            r.pool@.len() == number_of_buffers,
            r.nb() == number_of_queues,
            forall|s: int| 0 <= s < number_of_buffers ==> (#[trigger] r.pool@[s]).status is Empty,
            r.fl().len() == number_of_buffers,
            forall|i: int| 0 <= i < number_of_buffers ==> (#[trigger] r.fl()[i]) == i,
            forall|q: int| 0 <= q < number_of_queues ==> (#[trigger] r.buckets()[q]).len() == 0,
            r.disk_driver.log().len() == 0,
    {
        let mut pool: Vec<BufferHeader> = Vec::new();
        let mut free_list = FreeList::new();
        let mut i: u64 = 0;
        while i < number_of_buffers
            invariant
                i <= number_of_buffers,
                number_of_buffers <= usize::MAX,
                pool@.len() == i,
                free_list.my_list@.len() == i,
                forall|s: int| 0 <= s < i ==> (#[trigger] pool@[s]).status is Empty,
                forall|s: int| 0 <= s < i ==> (#[trigger] pool@[s]).data is None,
                forall|j: int| 0 <= j < i ==> (#[trigger] free_list.my_list@[j]) == j,
            decreases number_of_buffers - i,
        {
            let slot = pool.len();
            pool.push(BufferHeader::default());
            free_list.push(&pool, slot);
            i = i + 1;
        }
        let hash_queue = BufferHashQueue::new(number_of_queues);
        let disk_driver = DiskDriver::new();
        let r = BufferSystem { pool, free_list, hash_queue, disk_driver };
        proof {
            assert forall|s: int|
                0 <= s < r.pool@.len() && !((#[trigger] r.pool@[s]).status is Locked) implies r
                .fl_has_slot(s as usize) by {
                assert(r.fl()[s] == s);
            }
        }
        r
    }

    /// Free-list membership carries over to a state whose free list extends
    /// the old one.
    pub proof fn lemma_fl_witness(pre: BufferSystem, post: BufferSystem, s: usize)
        requires
            pre.fl_has_slot(s),
            post.fl().len() >= pre.fl().len(),
            forall|i: int| 0 <= i < pre.fl().len() ==> post.fl()[i] == pre.fl()[i],
        ensures
            post.fl_has_slot(s),
    {
        let i = choose|i: int| 0 <= i < pre.fl().len() && pre.fl()[i] == s;
        assert(post.fl()[i] == s);
    }

    /// Hash-index membership carries over to a state with the same queues
    /// where the slot kept its identity.
    pub proof fn lemma_idx_witness(pre: BufferSystem, post: BufferSystem, s: usize)
        requires
            s < pre.pool@.len(),
            s < post.pool@.len(),
            pre.idx_has_slot(s),
            post.buckets() == pre.buckets(),
            post.nb() == pre.nb(),
            post.pool@[s as int].device_num == pre.pool@[s as int].device_num,
            post.pool@[s as int].block_num == pre.pool@[s as int].block_num,
        ensures
            post.idx_has_slot(s),
    {
        let chain = pre.buckets()[pre.home_bucket(
            pre.pool@[s as int].device_num,
            pre.pool@[s as int].block_num,
        )];
        let j = choose|j: int| 0 <= j < chain.len() && chain[j] == s;
        let post_chain = post.buckets()[post.home_bucket(
            post.pool@[s as int].device_num,
            post.pool@[s as int].block_num,
        )];
        assert(post_chain[j] == s);
    }

    /// The hash-index clauses of `wf` carry over to a state with the same
    /// queues whose headers kept their identities and their `Empty`-ness.
    pub proof fn lemma_index_clauses_preserved(pre: BufferSystem, post: BufferSystem)
        requires
            pre.wf(),
            post.buckets() == pre.buckets(),
            post.nb() == pre.nb(),
            post.pool@.len() == pre.pool@.len(),
            forall|s: int|
                0 <= s < pre.pool@.len() ==> (#[trigger] post.pool@[s]).device_num
                    == pre.pool@[s].device_num && post.pool@[s].block_num == pre.pool@[s].block_num
                    && ((post.pool@[s].status is Empty) <==> (pre.pool@[s].status is Empty)),
        ensures
            forall|q: int, j: int|
                #![trigger post.bucket_entry(q, j)]
                post.valid_pos(q, j) ==> post.idx_entry_ok(q, j),
            forall|q: int, j1: int, j2: int|
                #![trigger post.bucket_entry(q, j1), post.bucket_entry(q, j2)]
                post.valid_pos(q, j1) && post.valid_pos(q, j2) && j1 != j2 ==> post.slot_id(
                    post.bucket_entry(q, j1),
                ) != post.slot_id(post.bucket_entry(q, j2)),
            forall|s: int|
                0 <= s < post.pool@.len() && !((#[trigger] post.pool@[s]).status is Empty)
                    ==> post.idx_has_slot(s as usize),
    {
        assert forall|q: int, j: int|
            #![trigger post.bucket_entry(q, j)]
            post.valid_pos(q, j) implies post.idx_entry_ok(q, j) by {
            assert(pre.valid_pos(q, j));
            assert(pre.idx_entry_ok(q, j));
            assert(post.bucket_entry(q, j) == pre.bucket_entry(q, j));
        }
        assert forall|q: int, j1: int, j2: int|
            #![trigger post.bucket_entry(q, j1), post.bucket_entry(q, j2)]
            post.valid_pos(q, j1) && post.valid_pos(q, j2) && j1 != j2 implies post.slot_id(
            post.bucket_entry(q, j1),
        ) != post.slot_id(post.bucket_entry(q, j2)) by {
            assert(pre.valid_pos(q, j1));
            assert(pre.valid_pos(q, j2));
            assert(pre.idx_entry_ok(q, j1));
            assert(pre.idx_entry_ok(q, j2));
            assert(pre.slot_id(pre.bucket_entry(q, j1)) != pre.slot_id(pre.bucket_entry(q, j2)));
        }
        assert forall|s: int|
            0 <= s < post.pool@.len() && !((#[trigger] post.pool@[s]).status is Empty)
            implies post.idx_has_slot(s as usize) by {
            assert(!(pre.pool@[s].status is Empty));
            assert(pre.idx_has_slot(s as usize));
            Self::lemma_idx_witness(pre, post, s as usize);
        }
    }

    /// How a release (`brelse`) changes the engine: the buffer's status
    /// becomes `Unlocked` when released clean and `DelayedWriteToDisk` when
    /// released dirty, its identity and data stay, it is appended to the
    /// free list as most recently released, and nothing else moves.
    pub open spec fn release_post(
        pre: BufferSystem,
        post: BufferSystem,
        buffer: usize,
        dirty: bool,
    ) -> bool {
        &&& post.wf()
        &&& post.pool@ == pre.pool@.update(
            buffer as int,
            BufferHeader {
                device_num: pre.pool@[buffer as int].device_num,
                block_num: pre.pool@[buffer as int].block_num,
                status: if dirty {
                    BufferStatus::DelayedWriteToDisk
                } else {
                    BufferStatus::Unlocked
                },
                data: pre.pool@[buffer as int].data,
            },
        )
        &&& post.fl() == pre.fl().push(buffer)
        &&& post.buckets() == pre.buckets()
        &&& post.nb() == pre.nb()
        &&& post.disk_driver.log() == pre.disk_driver.log()
    }

    /// Releases a buffer the caller holds `Locked` (`brelse`). With `dirty`
    /// the write-back is deferred: the buffer keeps its data and must be
    /// flushed before its slot is reused for another block.
    pub fn release(&mut self, buffer: usize, dirty: bool)
        requires
            old(self).wf(),
            buffer < old(self).pool@.len(),
            old(self).pool@[buffer as int].status is Locked,
        ensures
            Self::release_post(*old(self), *final(self), buffer, dirty),
    {
        let status = if dirty {
            BufferStatus::DelayedWriteToDisk
        } else {
            BufferStatus::Unlocked
        };
        set_status(&mut self.pool, buffer, status);
        self.free_list.push(&self.pool, buffer);
        proof {
            let pre = *old(self);
            let post = *self;
            assert forall|i: int| 0 <= i < pre.fl().len() implies pre.fl()[i] != buffer by {
                assert(!(pre.pool@[pre.fl()[i] as int].status is Locked));
            }
            assert forall|i: int, j: int| 0 <= i < j < post.fl().len() implies post.fl()[i]
                != post.fl()[j] by {
                if j < pre.fl().len() {
                    assert(pre.fl()[i] != pre.fl()[j]);
                } else {
                    assert(post.fl()[j] == buffer);
                    assert(pre.fl()[i] != buffer);
                }
            }
            assert forall|i: int|
                0 <= i < post.fl().len() implies (#[trigger] post.fl()[i]) < post.pool@.len() && !(
                post.pool@[post.fl()[i] as int].status is Locked) by {
                if i < pre.fl().len() {
                    assert(post.fl()[i] == pre.fl()[i]);
                    assert(!(pre.pool@[pre.fl()[i] as int].status is Locked));
                } else {
                    assert(post.fl()[i] == buffer);
                }
            }
            assert forall|s: int|
                0 <= s < post.pool@.len() && !((#[trigger] post.pool@[s]).status is Locked)
                implies post.fl_has_slot(s as usize) by {
                if s == buffer {
                    assert(post.fl()[post.fl().len() - 1] == buffer);
                } else {
                    assert(pre.fl_has_slot(s as usize));
                    Self::lemma_fl_witness(pre, post, s as usize);
                }
            }
            Self::lemma_index_clauses_preserved(pre, post);
        }
    }

    /// Replaces the data of a buffer the caller holds `Locked`: payloads
    /// are mutated only through the exclusive holder.
    pub fn set_data(&mut self, buffer: usize, data: Vec<u8>)
        requires
            old(self).wf(),
            buffer < old(self).pool@.len(),
            old(self).pool@[buffer as int].status is Locked,
        ensures
            final(self).wf(),
            final(self).pool@ == old(self).pool@.update(
                buffer as int,
                BufferHeader {
                    device_num: old(self).pool@[buffer as int].device_num,
                    block_num: old(self).pool@[buffer as int].block_num,
                    status: BufferStatus::Locked,
                    data: Some(data),
                },
            ),
            final(self).fl() == old(self).fl(),
            final(self).buckets() == old(self).buckets(),
            final(self).nb() == old(self).nb(),
            final(self).disk_driver.log() == old(self).disk_driver.log(),
    {
        let h = &mut self.pool[buffer];
        h.data = Some(data);
        h.status = BufferStatus::Locked;
        proof {
            let pre = *old(self);
            let post = *self;
            assert forall|s: int|
                0 <= s < post.pool@.len() && !((#[trigger] post.pool@[s]).status is Locked)
                implies post.fl_has_slot(s as usize) by {
                assert(pre.fl_has_slot(s as usize));
                Self::lemma_fl_witness(pre, post, s as usize);
            }
            Self::lemma_index_clauses_preserved(pre, post);
        }
    }

    /// Reads the data of a buffer. Safe to call on any slot; only the
    /// exclusive holder may rely on it staying put.
    pub fn get_data(&self, buffer: usize) -> (r: &Option<Vec<u8>>)
        requires
            buffer < self.pool@.len(),
        ensures
            r == &self.pool@[buffer as int].data,
    {
        &self.pool[buffer].data
    }

    /// Reads the identity and status of a buffer.
    pub fn get_header(&self, buffer: usize) -> (r: (u64, u64, BufferStatus))
        requires
            buffer < self.pool@.len(),
        ensures
            r == (
                self.pool@[buffer as int].device_num,
                self.pool@[buffer as int].block_num,
                self.pool@[buffer as int].status,
            ),
    {
        let h = &self.pool[buffer];
        (h.device_num, h.block_num, h.status)
    }

    /// How many writes the disk has seen.
    pub fn disk_write_count(&self) -> (n: usize)
        ensures
            n == self.disk_driver.log().len(),
    {
        self.disk_driver.write_count()
    }

    /// The payload of the `i`th disk write, oldest first.
    pub fn disk_write_at(&self, i: usize) -> (r: &Vec<u8>)
        requires
            i < self.disk_driver.log().len(),
        ensures
            r@ == self.disk_driver.log()[i as int],
    {
        self.disk_driver.get_write(i)
    }

    /// Whether slot `s` is among the first `k` free-list entries — the ones
    /// an eviction pass flushes before it finds a clean victim.
    pub open spec fn in_flushed_prefix(self, k: int, s: int) -> bool {
        exists|i: int| 0 <= i < k && self.fl()[i] == s
    }

    /// The pool after the first `k` free-list buffers were flushed: each of
    /// them is clean again, everything else is untouched.
    pub open spec fn pool_after_flush(self, k: int) -> Seq<BufferHeader> {
        Seq::new(
            self.pool@.len(),
            |s: int|
                if self.in_flushed_prefix(k, s) {
                    after_flush(self.pool@[s])
                } else {
                    self.pool@[s]
                },
        )
    }

    /// The free list after the first `k` buffers were flushed: each flushed
    /// buffer was popped from the front and pushed back as most recently
    /// released, so the list rotates.
    pub open spec fn fl_rotated(self, k: int) -> Seq<usize> {
        self.fl().subrange(k, self.fl().len() as int) + self.fl().subrange(0, k)
    }

    /// The payloads of the first `k` free-list buffers, in the order they
    /// are flushed.
    pub open spec fn flushed_payloads(self, k: int) -> Seq<Seq<u8>> {
        Seq::new(k as nat, |i: int| self.pool@[self.fl()[i] as int].payload())
    }

    /// Whether the first `k` free-list buffers all hold delayed writes.
    pub open spec fn prefix_dirty(self, k: int) -> bool {
        forall|i: int|
            0 <= i < k ==> self.pool@[#[trigger] self.fl()[i] as int].status
                is DelayedWriteToDisk
    }

    /// In a well-formed engine, two non-`Empty` headers holding the same
    /// block are the same slot: the index never aliases one block over
    /// two buffers.
    pub proof fn lemma_same_id_same_slot(self, s1: usize, s2: usize)
        requires
            self.wf(),
            s1 < self.pool@.len(),
            s2 < self.pool@.len(),
            !(self.pool@[s1 as int].status is Empty),
            !(self.pool@[s2 as int].status is Empty),
            self.slot_id(s1) == self.slot_id(s2),
        ensures
            s1 == s2,
    {
        if s1 != s2 {
            assert(self.idx_has_slot(s1));
            assert(self.idx_has_slot(s2));
            let h = self.home_bucket(self.pool@[s1 as int].device_num, self.pool@[s1 as int].block_num);
            let chain = self.buckets()[h];
            let j1 = choose|j: int| 0 <= j < chain.len() && chain[j] == s1;
            let j2 = choose|j: int| 0 <= j < chain.len() && chain[j] == s2;
            assert(self.bucket_entry(h, j1) == s1);
            assert(self.bucket_entry(h, j2) == s2);
            assert(0 <= h < self.buckets().len());
            assert(self.valid_pos(h, j1));
            assert(self.valid_pos(h, j2));
            assert(j1 != j2);
            assert(self.slot_id(self.bucket_entry(h, j1)) != self.slot_id(self.bucket_entry(h, j2)));
        }
    }

    /// In a well-formed engine, the index chain of a non-`Empty` header's
    /// own block finds exactly that header.
    pub proof fn lemma_unique_match(self, s: usize)
        requires
            self.wf(),
            s < self.pool@.len(),
            !(self.pool@[s as int].status is Empty),
        ensures
            ({
                let chain = self.buckets()[self.home_bucket(
                    self.pool@[s as int].device_num,
                    self.pool@[s as int].block_num,
                )];
                find_match(
                    self.pool@,
                    chain,
                    self.pool@[s as int].device_num,
                    self.pool@[s as int].block_num,
                ) matches Some(i) && 0 <= i < chain.len() && chain[i] == s
            }),
            self.lookup_spec(self.pool@[s as int].device_num, self.pool@[s as int].block_num)
                == Some(s),
    {
        let d = self.pool@[s as int].device_num;
        let b = self.pool@[s as int].block_num;
        let chain = self.buckets()[self.home_bucket(d, b)];
        assert(self.idx_has_slot(s));
        let j = choose|j: int| 0 <= j < chain.len() && chain[j] == s;
        lemma_find_match_props(self.pool@, chain, d, b);
        match find_match(self.pool@, chain, d, b) {
            None => {
                assert(id_matches(self.pool@, chain[j], d, b));
            },
            Some(i) => {
                assert(id_matches(self.pool@, chain[i], d, b));
                Self::lemma_same_id_same_slot(self, chain[i], s);
            },
        }
    }

    /// In a well-formed engine, the free list's first entry holding a given
    /// non-`Empty`, non-`Locked` header's block is that header itself.
    pub proof fn lemma_fl_first_match_is(self, s: usize)
        requires
            self.wf(),
            s < self.pool@.len(),
            !(self.pool@[s as int].status is Empty),
            !(self.pool@[s as int].status is Locked),
        ensures
            find_match(
                self.pool@,
                self.fl(),
                self.pool@[s as int].device_num,
                self.pool@[s as int].block_num,
            ) matches Some(i) && 0 <= i < self.fl().len() && self.fl()[i] == s,
    {
        let d = self.pool@[s as int].device_num;
        let b = self.pool@[s as int].block_num;
        assert(self.fl_has_slot(s));
        let m = choose|m: int| 0 <= m < self.fl().len() && self.fl()[m] == s;
        lemma_find_match_props(self.pool@, self.fl(), d, b);
        match find_match(self.pool@, self.fl(), d, b) {
            None => {
                assert(id_matches(self.pool@, self.fl()[m], d, b));
            },
            Some(i) => {
                assert(id_matches(self.pool@, self.fl()[i], d, b));
                Self::lemma_same_id_same_slot(self, self.fl()[i], s);
            },
        }
    }

    /// A cache hit resolves correctly: locking the found buffer and taking
    /// it off the free list preserves the invariant and meets the acquire
    /// contract.
    pub proof fn lemma_hit_finish(
        pre: BufferSystem,
        post: BufferSystem,
        device_num: u64,
        block_num: u64,
        s: usize,
        i_fl: int,
    )
        requires
            pre.wf(),
            s < pre.pool@.len(),
            pre.lookup_spec(device_num, block_num) == Some(s),
            pre.pool@[s as int].device_num == device_num,
            pre.pool@[s as int].block_num == block_num,
            !(pre.pool@[s as int].status is Empty),
            !(pre.pool@[s as int].status is Locked),
            0 <= i_fl < pre.fl().len(),
            pre.fl()[i_fl] == s,
            post.fl() == pre.fl().remove(i_fl),
            post.pool@ == pre.pool@.update(
                s as int,
                BufferHeader {
                    device_num: device_num,
                    block_num: block_num,
                    status: BufferStatus::Locked,
                    data: pre.pool@[s as int].data,
                },
            ),
            post.buckets() == pre.buckets(),
            post.nb() == pre.nb(),
            post.disk_driver.log() == pre.disk_driver.log(),
        ensures
            Self::get_block_post(pre, post, device_num, block_num, GetBlockOutcome::Acquired(s)),
    {
        assert(post.hash_queue.wf()) by {
            assert(post.hash_queue.my_queues@.len() == post.buckets().len());
            assert(pre.hash_queue.my_queues@.len() == pre.buckets().len());
        }
        pre.fl().remove_ensures(i_fl);
        assert forall|i: int|
            0 <= i < post.fl().len() implies (#[trigger] post.fl()[i]) < post.pool@.len() && !(
            post.pool@[post.fl()[i] as int].status is Locked) && post.fl()[i] != s by {
            let m: int = if i < i_fl {
                i
            } else {
                i + 1
            };
            assert(post.fl()[i] == pre.fl()[m]);
            assert(!(pre.pool@[pre.fl()[m] as int].status is Locked));
            if m < i_fl {
                assert(pre.fl()[m] != pre.fl()[i_fl]);
            } else if m > i_fl {
                assert(pre.fl()[i_fl] != pre.fl()[m]);
            }
        }
        assert forall|i: int, j: int| 0 <= i < j < post.fl().len() implies post.fl()[i]
            != post.fl()[j] by {
            let mi: int = if i < i_fl {
                i
            } else {
                i + 1
            };
            let mj: int = if j < i_fl {
                j
            } else {
                j + 1
            };
            assert(post.fl()[i] == pre.fl()[mi]);
            assert(post.fl()[j] == pre.fl()[mj]);
            assert(pre.fl()[mi] != pre.fl()[mj]);
        }
        assert forall|t: int|
            0 <= t < post.pool@.len() && !((#[trigger] post.pool@[t]).status is Locked)
            implies post.fl_has_slot(t as usize) by {
            assert(t != s);
            assert(!(pre.pool@[t].status is Locked));
            assert(pre.fl_has_slot(t as usize));
            let m = choose|m: int| 0 <= m < pre.fl().len() && pre.fl()[m] == t as usize;
            assert(t as usize as int == t);
            assert(m != i_fl);
            if m < i_fl {
                assert(post.fl()[m] == pre.fl()[m]);
            } else {
                assert(post.fl()[m - 1] == pre.fl()[m]);
            }
        }
        Self::lemma_index_clauses_preserved(pre, post);
        assert(post.wf());
        assert(post.lookup_spec(device_num, block_num) == Some(s)) by {
            let chain = pre.buckets()[pre.home_bucket(device_num, block_num)];
            assert forall|j: int|
                0 <= j < chain.len() implies (id_matches(
                pre.pool@,
                #[trigger] chain[j],
                device_num,
                block_num,
            ) <==> id_matches(post.pool@, chain[j], device_num, block_num)) by {}
            lemma_find_match_same(pre.pool@, post.pool@, chain, device_num, block_num);
        }
        assert(exists|i: int|
            0 <= i < pre.fl().len() && pre.fl()[i] == s && post.fl() == pre.fl().remove(i)) by {
            assert(0 <= i_fl < pre.fl().len() && pre.fl()[i_fl] == s && post.fl() == pre.fl().remove(
                i_fl,
            ));
        }
    }

    /// Flushing a prefix of dirty free-list buffers and rotating them to
    /// the back preserves the engine's invariant: a state whose pool, free
    /// list and queues stand in that relation to a well-formed one is
    /// well-formed itself.
    pub proof fn lemma_rotation_wf(pre: BufferSystem, mid: BufferSystem, k: int)
        requires
            pre.wf(),
            0 <= k <= pre.fl().len(),
            pre.prefix_dirty(k),
            mid.pool@ == pre.pool_after_flush(k),
            mid.fl() == pre.fl_rotated(k),
            mid.buckets() == pre.buckets(),
            mid.nb() == pre.nb(),
        ensures
            mid.wf(),
            mid.fl().len() == pre.fl().len(),
            forall|s: int|
                0 <= s < pre.pool@.len() ==> (#[trigger] mid.pool@[s]).device_num
                    == pre.pool@[s].device_num && mid.pool@[s].block_num == pre.pool@[s].block_num
                    && mid.pool@[s].data == pre.pool@[s].data && ((mid.pool@[s].status is Empty)
                    <==> (pre.pool@[s].status is Empty)) && ((mid.pool@[s].status is Locked) <==> (
                pre.pool@[s].status is Locked)),
    {
        let n = pre.fl().len() as int;
        assert(mid.fl().len() == n);
        assert forall|i: int| 0 <= i < n implies (#[trigger] mid.fl()[i]) == if i < n - k {
            pre.fl()[i + k]
        } else {
            pre.fl()[i - (n - k)]
        } by {}
        assert forall|s: int|
            0 <= s < pre.pool@.len() implies (#[trigger] mid.pool@[s]).device_num
                == pre.pool@[s].device_num && mid.pool@[s].block_num == pre.pool@[s].block_num
                && mid.pool@[s].data == pre.pool@[s].data && ((mid.pool@[s].status is Empty) <==> (
            pre.pool@[s].status is Empty)) && ((mid.pool@[s].status is Locked) <==> (
            pre.pool@[s].status is Locked)) by {
            if pre.in_flushed_prefix(k, s) {
                let i = choose|i: int| 0 <= i < k && pre.fl()[i] == s;
                assert(pre.pool@[pre.fl()[i] as int].status is DelayedWriteToDisk);
            }
        }
        assert(mid.hash_queue.wf()) by {
            assert(mid.hash_queue.my_queues@.len() == mid.buckets().len());
            assert(pre.hash_queue.my_queues@.len() == pre.buckets().len());
            assert(mid.buckets().len() == pre.buckets().len());
        }
        assert forall|i: int, j: int| 0 <= i < j < mid.fl().len() implies mid.fl()[i]
            != mid.fl()[j] by {
            let mi: int = if i < n - k {
                i + k
            } else {
                i - (n - k)
            };
            let mj: int = if j < n - k {
                j + k
            } else {
                j - (n - k)
            };
            assert(mid.fl()[i] == pre.fl()[mi]);
            assert(mid.fl()[j] == pre.fl()[mj]);
            assert(mi != mj);
            if mi < mj {
                assert(pre.fl()[mi] != pre.fl()[mj]);
            } else {
                assert(pre.fl()[mj] != pre.fl()[mi]);
            }
        }
        assert forall|i: int|
            0 <= i < mid.fl().len() implies (#[trigger] mid.fl()[i]) < mid.pool@.len() && !(
            mid.pool@[mid.fl()[i] as int].status is Locked) by {
            let mi: int = if i < n - k {
                i + k
            } else {
                i - (n - k)
            };
            assert(mid.fl()[i] == pre.fl()[mi]);
            assert(!(pre.pool@[pre.fl()[mi] as int].status is Locked));
        }
        assert forall|s: int|
            0 <= s < mid.pool@.len() && !((#[trigger] mid.pool@[s]).status is Locked)
            implies mid.fl_has_slot(s as usize) by {
            assert(!(pre.pool@[s].status is Locked));
            assert(pre.fl_has_slot(s as usize));
            let m = choose|m: int| 0 <= m < pre.fl().len() && pre.fl()[m] == s as usize;
            if m >= k {
                assert(mid.fl()[m - k] == pre.fl()[m]);
            } else {
                assert(mid.fl()[m + (n - k)] == pre.fl()[m]);
            }
        }
        Self::lemma_index_clauses_preserved(pre, mid);
        assert forall|s: int|
            0 <= s < mid.pool@.len() && (#[trigger] mid.pool@[s]).status is Empty
            implies mid.pool@[s].data is None by {
            assert(pre.pool@[s].status is Empty);
        }
    }

    /// A cache miss that evicts resolves correctly: after flushing `k`
    /// dirty buffers and rotating them back, popping the clean victim `s`,
    /// re-keying it to the requested block and re-indexing it preserves the
    /// invariant and meets the acquire contract.
    pub proof fn lemma_evict_finish(
        pre: BufferSystem,
        mid: BufferSystem,
        post: BufferSystem,
        device_num: u64,
        block_num: u64,
        s: usize,
        k: int,
    )
        requires
            pre.wf(),
            mid.wf(),
            0 < pre.fl().len(),
            0 <= k <= pre.fl().len(),
            pre.prefix_dirty(k),
            mid.pool@ == pre.pool_after_flush(k),
            mid.fl() == pre.fl_rotated(k),
            mid.buckets() == pre.buckets(),
            mid.nb() == pre.nb(),
            mid.disk_driver.log() == pre.disk_driver.log() + pre.flushed_payloads(k),
            pre.lookup_spec(device_num, block_num) is None,
            s == mid.fl()[0],
            !(mid.pool@[s as int].status is DelayedWriteToDisk),
            post.nb() == mid.nb(),
            post.fl() == mid.fl().drop_first(),
            post.pool@ == mid.pool@.update(
                s as int,
                BufferHeader {
                    device_num: device_num,
                    block_num: block_num,
                    status: BufferStatus::Locked,
                    data: mid.pool@[s as int].data,
                },
            ),
            post.disk_driver.log() == mid.disk_driver.log(),
            ({
                let h_new = mid.home_bucket(device_num, block_num);
                let removed = Self::buckets_after_unindex(mid, s);
                post.buckets() == removed.update(h_new, removed[h_new].push(s))
            }),
        ensures
            Self::get_block_post(pre, post, device_num, block_num, GetBlockOutcome::Acquired(s)),
    {
        let n = pre.fl().len() as int;
        // Identity, data, and Empty/Locked state carry from pre to mid.
        assert forall|t: int|
            0 <= t < pre.pool@.len() implies (#[trigger] mid.pool@[t]).device_num
                == pre.pool@[t].device_num && mid.pool@[t].block_num == pre.pool@[t].block_num
                && mid.pool@[t].data == pre.pool@[t].data && ((mid.pool@[t].status is Empty) <==> (
            pre.pool@[t].status is Empty)) && ((mid.pool@[t].status is Locked) <==> (
            pre.pool@[t].status is Locked)) by {
            if pre.in_flushed_prefix(k, t) {
                let i = choose|i: int| 0 <= i < k && pre.fl()[i] == t;
                assert(pre.pool@[pre.fl()[i] as int].status is DelayedWriteToDisk);
            }
        }
        assert(mid.fl()[0] < mid.pool@.len() && !(mid.pool@[s as int].status is Locked));
        let d_old = mid.pool@[s as int].device_num;
        let b_old = mid.pool@[s as int].block_num;
        let was_empty = mid.pool@[s as int].status is Empty;
        let h_old = mid.home_bucket(d_old, b_old);
        let h_new = mid.home_bucket(device_num, block_num);
        let chain_old = mid.buckets()[h_old];
        let removed = Self::buckets_after_unindex(mid, s);
        assert(0 <= h_new < mid.buckets().len());
        assert(0 <= h_old < mid.buckets().len());
        // The miss seen on pre holds of mid too: nothing in the new
        // identity's queue matches it.
        let chain_new = mid.buckets()[h_new];
        assert(pre.home_bucket(device_num, block_num) == h_new);
        lemma_find_match_props(pre.pool@, chain_new, device_num, block_num);
        assert forall|j: int|
            0 <= j < chain_new.len() implies !id_matches(
            mid.pool@,
            #[trigger] chain_new[j],
            device_num,
            block_num,
        ) by {
            assert(!id_matches(pre.pool@, chain_new[j], device_num, block_num));
        }
        // Where the victim was indexed, find_match finds exactly it.
        let ghost i_rm: int = if was_empty {
            0
        } else {
            mid.lemma_unique_match(s);
            choose|i: int|
                0 <= i < chain_old.len() && chain_old[i] == s && find_match(
                    mid.pool@,
                    chain_old,
                    d_old,
                    b_old,
                ) == Some(i)
        };
        if !was_empty {
            assert(removed == mid.buckets().update(h_old, chain_old.remove(i_rm)));
            chain_old.remove_ensures(i_rm);
        }
        // The victim occurs in the index exactly once, at (h_old, i_rm).
        assert forall|q: int, j: int|
            mid.valid_pos(q, j) && (#[trigger] mid.bucket_entry(q, j)) == s implies !was_empty && q
                == h_old && j == i_rm by {
            assert(mid.idx_entry_ok(q, j));
            if !was_empty && (q != h_old || j != i_rm) {
                assert(mid.bucket_entry(h_old, i_rm) == s);
                assert(mid.valid_pos(h_old, i_rm));
                if q == h_old && j != i_rm {
                    assert(mid.slot_id(mid.bucket_entry(q, j)) != mid.slot_id(
                        mid.bucket_entry(h_old, i_rm),
                    ));
                }
            }
        }
        // Every entry of the final queues other than the one just pushed
        // comes from the old queues and is not the victim.
        let last = removed[h_new].len() as int;
        assert(post.buckets().len() == mid.buckets().len());
        assert(post.buckets()[h_new] == removed[h_new].push(s));
        assert forall|q: int, j: int|
            post.valid_pos(q, j) && !(q == h_new && j == last) implies exists|j0: int|
                mid.valid_pos(q, j0) && mid.bucket_entry(q, j0) == post.bucket_entry(q, j)
                    && #[trigger] post.bucket_entry(q, j) != s by {
            let e = post.bucket_entry(q, j);
            if !was_empty && q == h_old {
                if q == h_new {
                    // removed then pushed: j < last indexes chain_old.remove(i_rm)
                    let j0: int = if j < i_rm {
                        j
                    } else {
                        j + 1
                    };
                    assert(mid.bucket_entry(q, j0) == e);
                    assert(mid.valid_pos(q, j0));
                    assert(e != s);
                } else {
                    let j0: int = if j < i_rm {
                        j
                    } else {
                        j + 1
                    };
                    assert(mid.bucket_entry(q, j0) == e);
                    assert(mid.valid_pos(q, j0));
                    assert(e != s);
                }
            } else {
                // this queue was not touched by the removal
                assert(post.bucket_entry(q, j) == mid.bucket_entry(q, j));
                assert(mid.valid_pos(q, j));
                assert(mid.bucket_entry(q, j) != s) by {
                    if mid.bucket_entry(q, j) == s {
                        assert(!was_empty && q == h_old && j == i_rm);
                    }
                }
            }
        }
        // Entries other than the victim keep their place in the index.
        assert forall|q: int, j0: int|
            mid.valid_pos(q, j0) && (#[trigger] mid.bucket_entry(q, j0)) != s implies exists|j: int|
                post.valid_pos(q, j) && post.bucket_entry(q, j) == mid.bucket_entry(q, j0) by {
            let e = mid.bucket_entry(q, j0);
            if !was_empty && q == h_old {
                assert(j0 != i_rm);
                let j: int = if j0 < i_rm {
                    j0
                } else {
                    j0 - 1
                };
                assert(post.bucket_entry(q, j) == e);
                assert(post.valid_pos(q, j));
            } else {
                assert(post.bucket_entry(q, j0) == e);
                assert(post.valid_pos(q, j0));
            }
        }
        // Well-formedness of the final state.
        assert(post.hash_queue.wf()) by {
            assert(post.hash_queue.my_queues@.len() == post.buckets().len());
            assert(mid.hash_queue.my_queues@.len() == mid.buckets().len());
        }
        assert forall|i: int|
            0 <= i < post.fl().len() implies (#[trigger] post.fl()[i]) < post.pool@.len() && !(
            post.pool@[post.fl()[i] as int].status is Locked) && post.fl()[i] != s by {
            assert(post.fl()[i] == mid.fl()[i + 1]);
            assert(mid.fl()[0] != mid.fl()[i + 1]);
            assert(!(mid.pool@[mid.fl()[i + 1] as int].status is Locked));
        }
        assert forall|i: int, j: int| 0 <= i < j < post.fl().len() implies post.fl()[i]
            != post.fl()[j] by {
            assert(post.fl()[i] == mid.fl()[i + 1]);
            assert(post.fl()[j] == mid.fl()[j + 1]);
            assert(mid.fl()[i + 1] != mid.fl()[j + 1]);
        }
        assert forall|t: int|
            0 <= t < post.pool@.len() && !((#[trigger] post.pool@[t]).status is Locked)
            implies post.fl_has_slot(t as usize) by {
            assert(t != s);
            assert(!(mid.pool@[t].status is Locked));
            assert(mid.fl_has_slot(t as usize));
            let m = choose|m: int| 0 <= m < mid.fl().len() && mid.fl()[m] == t as usize;
            assert(t as usize as int == t);
            assert(m != 0);
            assert(post.fl()[m - 1] == mid.fl()[m]);
        }
        assert forall|q: int, j: int|
            #![trigger post.bucket_entry(q, j)]
            post.valid_pos(q, j) implies post.idx_entry_ok(q, j) by {
            if q == h_new && j == last {
                assert(post.bucket_entry(q, j) == s);
                assert(post.pool@[s as int].status is Locked);
                assert(post.home_bucket(device_num, block_num) == h_new);
            } else {
                let j0 = choose|j0: int|
                    mid.valid_pos(q, j0) && mid.bucket_entry(q, j0) == post.bucket_entry(q, j)
                        && post.bucket_entry(q, j) != s;
                assert(mid.idx_entry_ok(q, j0));
                let e = post.bucket_entry(q, j);
                assert(post.pool@[e as int] == mid.pool@[e as int]);
            }
        }
        assert forall|q: int, j1: int, j2: int|
            #![trigger post.bucket_entry(q, j1), post.bucket_entry(q, j2)]
            post.valid_pos(q, j1) && post.valid_pos(q, j2) && j1 != j2 implies post.slot_id(
            post.bucket_entry(q, j1),
        ) != post.slot_id(post.bucket_entry(q, j2)) by {
            let e1 = post.bucket_entry(q, j1);
            let e2 = post.bucket_entry(q, j2);
            if q == h_new && j1 == last {
                // e1 is the victim with its new identity; e2 is an old entry
                let j0 = choose|j0: int|
                    mid.valid_pos(q, j0) && mid.bucket_entry(q, j0) == e2 && e2 != s;
                assert(mid.idx_entry_ok(q, j0));
                assert(post.pool@[e2 as int] == mid.pool@[e2 as int]);
                if post.slot_id(e2) == (device_num, block_num) {
                    // then e2 would have matched the missed lookup
                    assert(mid.home_bucket(
                        mid.pool@[e2 as int].device_num,
                        mid.pool@[e2 as int].block_num,
                    ) == q);
                    assert(id_matches(mid.pool@, chain_new[j0], device_num, block_num));
                }
            } else if q == h_new && j2 == last {
                let j0 = choose|j0: int|
                    mid.valid_pos(q, j0) && mid.bucket_entry(q, j0) == e1 && e1 != s;
                assert(mid.idx_entry_ok(q, j0));
                assert(post.pool@[e1 as int] == mid.pool@[e1 as int]);
                if post.slot_id(e1) == (device_num, block_num) {
                    assert(mid.home_bucket(
                        mid.pool@[e1 as int].device_num,
                        mid.pool@[e1 as int].block_num,
                    ) == q);
                    assert(id_matches(mid.pool@, chain_new[j0], device_num, block_num));
                }
            } else {
                let j01 = choose|j0: int|
                    mid.valid_pos(q, j0) && mid.bucket_entry(q, j0) == e1 && e1 != s;
                let j02 = choose|j0: int|
                    mid.valid_pos(q, j0) && mid.bucket_entry(q, j0) == e2 && e2 != s;
                assert(post.pool@[e1 as int] == mid.pool@[e1 as int]);
                assert(post.pool@[e2 as int] == mid.pool@[e2 as int]);
                assert(j01 != j02) by {
                    // the removal and push maps are injective position maps
                    if j01 == j02 {
                        assert(e1 == e2);
                        // two distinct final positions holding the same entry
                        // would need two distinct old positions
                        if !was_empty && q == h_old {
                            let m1: int = if j1 < i_rm {
                                j1
                            } else {
                                j1 + 1
                            };
                            let m2: int = if j2 < i_rm {
                                j2
                            } else {
                                j2 + 1
                            };
                            assert(mid.bucket_entry(q, m1) == e1);
                            assert(mid.bucket_entry(q, m2) == e2);
                            assert(mid.valid_pos(q, m1));
                            assert(mid.valid_pos(q, m2));
                            assert(m1 != m2);
                            assert(mid.slot_id(mid.bucket_entry(q, m1)) != mid.slot_id(
                                mid.bucket_entry(q, m2),
                            ));
                        } else {
                            assert(mid.bucket_entry(q, j1) == e1);
                            assert(mid.bucket_entry(q, j2) == e2);
                            assert(mid.valid_pos(q, j1));
                            assert(mid.valid_pos(q, j2));
                            assert(mid.slot_id(mid.bucket_entry(q, j1)) != mid.slot_id(
                                mid.bucket_entry(q, j2),
                            ));
                        }
                    }
                }
                assert(mid.slot_id(mid.bucket_entry(q, j01)) != mid.slot_id(
                    mid.bucket_entry(q, j02),
                ));
            }
        }
        assert forall|t: int|
            0 <= t < post.pool@.len() && !((#[trigger] post.pool@[t]).status is Empty)
            implies post.idx_has_slot(t as usize) by {
            if t == s {
                assert(t as usize == s);
                let chain = post.buckets()[post.home_bucket(device_num, block_num)];
                assert(post.home_bucket(
                    post.pool@[s as int].device_num,
                    post.pool@[s as int].block_num,
                ) == h_new);
                assert(0 <= last < chain.len());
                assert(chain[last] == s);
                assert(post.idx_has_slot(s));
            } else {
                assert(!(mid.pool@[t].status is Empty));
                assert(mid.idx_has_slot(t as usize));
                let h_t = mid.home_bucket(mid.pool@[t].device_num, mid.pool@[t].block_num);
                let j0 = choose|j0: int|
                    0 <= j0 < mid.buckets()[h_t].len() && mid.buckets()[h_t][j0] == t as usize;
                assert(t as usize as int == t);
                assert(mid.valid_pos(h_t, j0));
                assert(mid.bucket_entry(h_t, j0) == t as usize);
                assert(mid.bucket_entry(h_t, j0) != s);
                let j = choose|j: int|
                    post.valid_pos(h_t, j) && post.bucket_entry(h_t, j) == mid.bucket_entry(
                        h_t,
                        j0,
                    );
                assert(post.home_bucket(post.pool@[t].device_num, post.pool@[t].block_num) == h_t);
                assert(post.buckets()[h_t][j] == t as usize);
            }
        }
        assert forall|t: int|
            0 <= t < post.pool@.len() && (#[trigger] post.pool@[t]).status is Empty
            implies post.pool@[t].data is None by {
            assert(mid.pool@[t].status is Empty);
        }
        assert(post.wf());
        // The lookup now finds the victim under its new identity.
        assert(post.lookup_spec(device_num, block_num) == Some(s)) by {
            let chain = post.buckets()[h_new];
            assert forall|j: int| 0 <= j < last implies !id_matches(
                post.pool@,
                #[trigger] chain[j],
                device_num,
                block_num,
            ) by {
                let e = chain[j];
                assert(post.valid_pos(h_new, j));
                assert(post.bucket_entry(h_new, j) == e);
                let j0 = choose|j0: int|
                    mid.valid_pos(h_new, j0) && mid.bucket_entry(h_new, j0) == e && e != s;
                if id_matches(post.pool@, e, device_num, block_num) {
                    assert(post.pool@[e as int] == mid.pool@[e as int]);
                    assert(mid.idx_entry_ok(h_new, j0));
                    assert(id_matches(mid.pool@, chain_new[j0], device_num, block_num));
                }
            }
            assert(id_matches(post.pool@, chain[last], device_num, block_num));
            lemma_find_match_at(post.pool@, chain, device_num, block_num, last);
        }
        // Assemble the contract.
        assert(s == pre.fl_rotated(k)[0]);
        assert(post.pool@ == pre.pool_after_flush(k).update(
            s as int,
            BufferHeader {
                device_num: device_num,
                block_num: block_num,
                status: BufferStatus::Locked,
                data: pre.pool@[s as int].data,
            },
        ));
        assert(post.fl() == pre.fl_rotated(k).drop_first());
        assert(Self::get_block_evict_post(pre, post, device_num, block_num, s, k)) by {
            if !was_empty {
                let h_old_pre = pre.home_bucket(pre.pool@[s as int].device_num, pre.pool@[s as int].block_num);
                assert(h_old_pre == h_old);
                assert(0 <= i_rm < pre.buckets()[h_old_pre].len() && pre.buckets()[h_old_pre][i_rm]
                    == s && ({
                    let removed_pre = pre.buckets().update(
                        h_old_pre,
                        pre.buckets()[h_old_pre].remove(i_rm),
                    );
                    post.buckets() == removed_pre.update(h_new, removed_pre[h_new].push(s))
                }));
            }
        }
        assert forall|t: int|
            0 <= t < pre.pool@.len() && t != s && (#[trigger] pre.pool@[t]).status is Locked
            implies post.pool@[t] == pre.pool@[t] by {
            assert(!pre.in_flushed_prefix(k, t)) by {
                if pre.in_flushed_prefix(k, t) {
                    let i = choose|i: int| 0 <= i < k && pre.fl()[i] == t;
                    assert(pre.pool@[pre.fl()[i] as int].status is DelayedWriteToDisk);
                }
            }
        }
        assert(exists|kk: int|
            Self::get_block_evict_post(pre, post, device_num, block_num, s, kk)) by {
            assert(Self::get_block_evict_post(pre, post, device_num, block_num, s, k));
        }
    }

    /// Acquires the buffer for block `(device_num, block_num)` — the
    /// classic `getblk`. One call runs the algorithm until it either locks
    /// a buffer and returns it, or reaches a point where the caller must
    /// wait for another caller's release; it then reports which event to
    /// wait for, and the caller retries after suspending, revalidating the
    /// world from the top.
    ///
    /// On a hit the cached buffer itself is returned with its data intact;
    /// on a miss the least recently used clean buffer is evicted and
    /// re-keyed, after every dirty buffer found ahead of it on the free
    /// list has been flushed to the disk.
    pub fn get_block(&mut self, device_num: u64, block_num: u64) -> (r: GetBlockOutcome)
        requires
            old(self).wf(),
        ensures
            Self::get_block_post(*old(self), *final(self), device_num, block_num, r),
    {
        let ghost pre = *old(self);
        let found = self.hash_queue.get_buffer(&self.pool, device_num, block_num);
        match found {
            Some(buffer) => {
                proof {
                    let chain = pre.buckets()[pre.home_bucket(device_num, block_num)];
                    lemma_find_match_props(pre.pool@, chain, device_num, block_num);
                }
                let is_locked = match self.pool[buffer].status {
                    BufferStatus::Locked => true,
                    _ => false,
                };
                if is_locked {
                    return GetBlockOutcome::WaitForBlock;
                }
                proof {
                    pre.lemma_fl_first_match_is(buffer);
                }
                let ghost i_fl = choose|i: int|
                    0 <= i < pre.fl().len() && pre.fl()[i] == buffer && find_match(
                        pre.pool@,
                        pre.fl(),
                        device_num,
                        block_num,
                    ) == Some(i);
                self.free_list.remove(&self.pool, (device_num, block_num));
                set_status(&mut self.pool, buffer, BufferStatus::Locked);
                proof {
                    Self::lemma_hit_finish(pre, *self, device_num, block_num, buffer, i_fl);
                }
                GetBlockOutcome::Acquired(buffer)
            },
            None => {
                if self.free_list.is_empty() {
                    return GetBlockOutcome::WaitForAnyBuffer;
                }
                let ghost n = pre.fl().len() as int;
                let ghost mut k: int = 0;
                loop
                    invariant
                        pre == *old(self),
                        pre.wf(),
                        0 < n,
                        n == pre.fl().len(),
                        0 <= k <= n,
                        pre.prefix_dirty(k),
                        find_match(
                            pre.pool@,
                            pre.buckets()[pre.home_bucket(device_num, block_num)],
                            device_num,
                            block_num,
                        ) is None,
                        self.pool@ == pre.pool_after_flush(k),
                        self.free_list.my_list@ == pre.fl_rotated(k),
                        self.hash_queue == pre.hash_queue,
                        self.disk_driver.log() == pre.disk_driver.log() + pre.flushed_payloads(k),
                    decreases n - k,
                {
                    proof {
                        Self::lemma_rotation_wf(pre, *self, k);
                    }
                    let ghost mid = *self;
                    let victim = self.free_list.pop().unwrap();
                    proof {
                        assert(victim == mid.fl()[0]);
                        assert(victim < mid.pool@.len() && !(mid.pool@[victim as int].status
                            is Locked));
                    }
                    let is_dirty = match self.pool[victim].status {
                        BufferStatus::DelayedWriteToDisk => true,
                        _ => false,
                    };
                    if is_dirty {
                        proof {
                            if k == n {
                                assert(pre.fl_rotated(n) =~= pre.fl());
                                assert(pre.fl()[0] == victim);
                                assert(pre.in_flushed_prefix(n, victim as int));
                            }
                            assert(k < n);
                            assert(victim == pre.fl()[k]);
                            assert(!pre.in_flushed_prefix(k, victim as int)) by {
                                if pre.in_flushed_prefix(k, victim as int) {
                                    let i = choose|i: int|
                                        0 <= i < k && pre.fl()[i] == victim as int;
                                    assert(pre.fl()[i] != pre.fl()[k]);
                                }
                            }
                            assert(mid.pool@[victim as int] == pre.pool@[victim as int]);
                        }
                        let empty_payload: Vec<u8> = Vec::new();
                        match &self.pool[victim].data {
                            Some(p) => self.disk_driver.write(p),
                            None => self.disk_driver.write(&empty_payload),
                        }
                        set_status(&mut self.pool, victim, BufferStatus::Unlocked);
                        self.free_list.push(&self.pool, victim);
                        proof {
                            assert(self.disk_driver.log() == mid.disk_driver.log().push(
                                pre.pool@[victim as int].payload(),
                            ));
                            assert(self.disk_driver.log() =~= pre.disk_driver.log()
                                + pre.flushed_payloads(k + 1)) by {
                                assert(pre.flushed_payloads(k + 1) =~= pre.flushed_payloads(k).push(
                                    pre.pool@[pre.fl()[k] as int].payload(),
                                ));
                            }
                            assert forall|t: int|
                                0 <= t < pre.pool@.len() implies #[trigger] self.pool@[t]
                                == pre.pool_after_flush(k + 1)[t] by {
                                assert(pre.in_flushed_prefix(k + 1, t) <==> (pre.in_flushed_prefix(
                                    k,
                                    t,
                                ) || t == victim as int)) by {
                                    if pre.in_flushed_prefix(k + 1, t) && t != victim as int {
                                        let i = choose|i: int|
                                            0 <= i < k + 1 && pre.fl()[i] == t;
                                        assert(0 <= i < k);
                                        assert(pre.in_flushed_prefix(k, t));
                                    }
                                    if pre.in_flushed_prefix(k, t) {
                                        let i = choose|i: int| 0 <= i < k && pre.fl()[i] == t;
                                        assert(0 <= i < k + 1 && pre.fl()[i] == t);
                                    }
                                    if t == victim as int {
                                        assert(pre.fl()[k] == t);
                                    }
                                }
                                if pre.in_flushed_prefix(k, t) {
                                    assert(t != victim as int);
                                }
                            }
                            assert(self.pool@ =~= pre.pool_after_flush(k + 1));
                            assert(self.free_list.my_list@ =~= pre.fl_rotated(k + 1));
                            assert(pre.prefix_dirty(k + 1)) by {
                                assert(pre.pool@[pre.fl()[k] as int].status
                                    is DelayedWriteToDisk);
                            }
                            k = k + 1;
                        }
                    } else {
                        let old_device = self.pool[victim].device_num;
                        let old_block = self.pool[victim].block_num;
                        let is_empty_victim = match self.pool[victim].status {
                            BufferStatus::Empty => true,
                            _ => false,
                        };
                        if !is_empty_victim {
                            self.hash_queue.remove(&self.pool, old_device, old_block);
                        }
                        proof {
                            assert(self.hash_queue.buckets() == Self::buckets_after_unindex(
                                mid,
                                victim,
                            ));
                        }
                        rekey_and_lock(&mut self.pool, victim, device_num, block_num);
                        self.hash_queue.add_buffer(&self.pool, victim);
                        proof {
                            Self::lemma_evict_finish(
                                pre,
                                mid,
                                *self,
                                device_num,
                                block_num,
                                victim,
                                k,
                            );
                        }
                        return GetBlockOutcome::Acquired(victim);
                    }
                }
            },
        }
    }

    /// The hash queues after slot `s` is taken out of the index: its
    /// entry leaves its old identity's queue, or nothing moves when the
    /// header is `Empty` and so was never indexed.
    pub open spec fn buckets_after_unindex(mid: BufferSystem, s: usize) -> Seq<Seq<usize>> {
        if mid.pool@[s as int].status is Empty {
            mid.buckets()
        } else {
            let h_old = mid.home_bucket(
                mid.pool@[s as int].device_num,
                mid.pool@[s as int].block_num,
            );
            match find_match(
                mid.pool@,
                mid.buckets()[h_old],
                mid.pool@[s as int].device_num,
                mid.pool@[s as int].block_num,
            ) {
                Some(i) => mid.buckets().update(h_old, mid.buckets()[h_old].remove(i)),
                None => mid.buckets(),
            }
        }
    }

    /// How a cache miss that evicts resolves: the first `k` free-list
    /// buffers, all dirty, were flushed to the disk in order and pushed
    /// back; the victim `s` — the head of the rotated list, clean by then —
    /// was popped, re-keyed from its old identity to the requested one, and
    /// locked, keeping its bytes in place for the caller to refill.
    pub open spec fn get_block_evict_post(
        pre: BufferSystem,
        post: BufferSystem,
        device_num: u64,
        block_num: u64,
        s: usize,
        k: int,
    ) -> bool {
        let n = pre.fl().len() as int;
        let mid_pool = pre.pool_after_flush(k);
        &&& 0 < n
        &&& 0 <= k <= n
        &&& pre.prefix_dirty(k)
        &&& s == pre.fl_rotated(k)[0]
        &&& !(mid_pool[s as int].status is DelayedWriteToDisk)
        &&& post.disk_driver.log() == pre.disk_driver.log() + pre.flushed_payloads(k)
        &&& post.fl() == pre.fl_rotated(k).drop_first()
        &&& post.pool@ == mid_pool.update(
            s as int,
            BufferHeader {
                device_num: device_num,
                block_num: block_num,
                status: BufferStatus::Locked,
                data: pre.pool@[s as int].data,
            },
        )
        &&& ({
            let h_new = pre.home_bucket(device_num, block_num);
            if pre.pool@[s as int].status is Empty {
                post.buckets() == pre.buckets().update(h_new, pre.buckets()[h_new].push(s))
            } else {
                let h_old = pre.home_bucket(
                    pre.pool@[s as int].device_num,
                    pre.pool@[s as int].block_num,
                );
                exists|i: int|
                    0 <= i < pre.buckets()[h_old].len() && pre.buckets()[h_old][i] == s && ({
                        let removed = pre.buckets().update(h_old, pre.buckets()[h_old].remove(i));
                        post.buckets() == removed.update(h_new, removed[h_new].push(s))
                    })
            }
        })
    }

    /// Everything one call of acquire (`get_block`) does, as a relation
    /// between the state before, the state after, and the outcome:
    /// - a hit on a `Locked` buffer, or a miss with an empty free list,
    ///   changes nothing and says which event to wait for — and those are
    ///   the only two outcomes that do not acquire;
    /// - otherwise a buffer holding the requested block is returned
    ///   `Locked`, it was not `Locked` before the call, its data is
    ///   untouched, the index maps the identity to it, and every buffer
    ///   some other caller holds `Locked` is untouched;
    /// - a hit locks the cached buffer itself and takes it off the free
    ///   list, flushing nothing;
    /// - a miss evicts per `get_block_evict_post`, flushing each dirty
    ///   buffer it pops before any slot is re-keyed.
    pub open spec fn get_block_post(
        pre: BufferSystem,
        post: BufferSystem,
        device_num: u64,
        block_num: u64,
        r: GetBlockOutcome,
    ) -> bool {
        &&& post.wf()
        &&& post.pool@.len() == pre.pool@.len()
        &&& post.nb() == pre.nb()
        &&& match r {
            GetBlockOutcome::WaitForBlock => {
                &&& post == pre
                &&& pre.lookup_spec(device_num, block_num) matches Some(s) && pre.pool@[s as int].status
                    is Locked
            },
            GetBlockOutcome::WaitForAnyBuffer => {
                &&& post == pre
                &&& pre.lookup_spec(device_num, block_num) is None
                &&& pre.fl().len() == 0
            },
            GetBlockOutcome::Acquired(s) => {
                &&& s < post.pool@.len()
                &&& post.pool@[s as int].status is Locked
                &&& post.pool@[s as int].device_num == device_num
                &&& post.pool@[s as int].block_num == block_num
                &&& post.pool@[s as int].data == pre.pool@[s as int].data
                &&& !(pre.pool@[s as int].status is Locked)
                &&& post.lookup_spec(device_num, block_num) == Some(s)
                &&& forall|t: int|
                    0 <= t < pre.pool@.len() && t != s && (#[trigger] pre.pool@[t]).status
                        is Locked ==> post.pool@[t] == pre.pool@[t]
                &&& match pre.lookup_spec(device_num, block_num) {
                    Some(hit) => {
                        &&& s == hit
                        &&& post.disk_driver.log() == pre.disk_driver.log()
                        &&& post.pool@ == pre.pool@.update(
                            s as int,
                            BufferHeader {
                                device_num: device_num,
                                block_num: block_num,
                                status: BufferStatus::Locked,
                                data: pre.pool@[s as int].data,
                            },
                        )
                        &&& post.buckets() == pre.buckets()
                        &&& exists|i: int|
                            0 <= i < pre.fl().len() && pre.fl()[i] == s && post.fl()
                                == pre.fl().remove(i)
                    },
                    None => exists|k: int|
                        Self::get_block_evict_post(pre, post, device_num, block_num, s, k),
                }
            },
        }
    }

    /// Exclusivity: two acquires that both return a buffer never hand out
    /// the same slot while the first is still held — the second call's
    /// buffer was not `Locked` when that call began, and both are `Locked`
    /// when it ends. In particular, acquires for distinct blocks never
    /// share a buffer while both hold it.
    pub proof fn lemma_acquire_exclusive(
        s0: BufferSystem,
        s1: BufferSystem,
        s2: BufferSystem,
        dev1: u64,
        blk1: u64,
        dev2: u64,
        blk2: u64,
        h1: usize,
        h2: usize,
    )
        requires
            s0.wf(),
            Self::get_block_post(s0, s1, dev1, blk1, GetBlockOutcome::Acquired(h1)),
            Self::get_block_post(s1, s2, dev2, blk2, GetBlockOutcome::Acquired(h2)),
        ensures
            h1 != h2,
            s2.pool@[h1 as int].status is Locked,
            s2.pool@[h2 as int].status is Locked,
    {
        assert(s1.pool@[h1 as int].status is Locked);
        assert(!(s1.pool@[h2 as int].status is Locked));
    }

    /// A `Locked` buffer is never a member of the free list.
    pub proof fn lemma_locked_not_on_free_list(self, s: usize)
        requires
            self.wf(),
            s < self.pool@.len(),
            self.pool@[s as int].status is Locked,
        ensures
            !self.fl_has_slot(s),
    {
        if self.fl_has_slot(s) {
            let i = choose|i: int| 0 <= i < self.fl().len() && self.fl()[i] == s;
            assert(!(self.pool@[self.fl()[i] as int].status is Locked));
        }
    }

    /// Cache-hit correctness: re-acquiring a block that was released clean
    /// returns the same buffer, with its data unchanged since the release
    /// and nothing flushed.
    pub proof fn lemma_clean_reacquire(
        pre: BufferSystem,
        mid: BufferSystem,
        post: BufferSystem,
        buffer: usize,
        r: GetBlockOutcome,
    )
        requires
            pre.wf(),
            buffer < pre.pool@.len(),
            pre.pool@[buffer as int].status is Locked,
            Self::release_post(pre, mid, buffer, false),
            Self::get_block_post(
                mid,
                post,
                pre.pool@[buffer as int].device_num,
                pre.pool@[buffer as int].block_num,
                r,
            ),
        ensures
            r == GetBlockOutcome::Acquired(buffer),
            post.pool@[buffer as int].data == pre.pool@[buffer as int].data,
            post.disk_driver.log() == pre.disk_driver.log(),
    {
        let d = pre.pool@[buffer as int].device_num;
        let b = pre.pool@[buffer as int].block_num;
        assert(mid.pool@[buffer as int].status is Unlocked);
        assert(mid.pool@[buffer as int].device_num == d);
        assert(mid.pool@[buffer as int].block_num == b);
        mid.lemma_unique_match(buffer);
        assert(mid.lookup_spec(d, b) == Some(buffer));
        match r {
            GetBlockOutcome::WaitForBlock => {
                assert(false);
            },
            GetBlockOutcome::WaitForAnyBuffer => {
                assert(false);
            },
            GetBlockOutcome::Acquired(s) => {
                assert(s == buffer);
            },
        }
    }

    /// No lost writes: when a miss evicts, every buffer that stops holding
    /// a delayed write during the call had its payload appended to the disk
    /// log first — in particular a dirty victim is flushed before its slot
    /// is re-keyed.
    pub proof fn lemma_no_lost_writes(
        pre: BufferSystem,
        post: BufferSystem,
        device_num: u64,
        block_num: u64,
        r: GetBlockOutcome,
        t: usize,
    )
        requires
            pre.wf(),
            Self::get_block_post(pre, post, device_num, block_num, r),
            pre.lookup_spec(device_num, block_num) is None,
            t < pre.pool@.len(),
            pre.pool@[t as int].status is DelayedWriteToDisk,
            !(post.pool@[t as int].status is DelayedWriteToDisk),
        ensures
            exists|i: int|
                pre.disk_driver.log().len() <= i < post.disk_driver.log().len()
                    && post.disk_driver.log()[i] == pre.pool@[t as int].payload(),
    {
        let n = pre.fl().len() as int;
        match r {
            GetBlockOutcome::WaitForBlock => {
                assert(false);
            },
            GetBlockOutcome::WaitForAnyBuffer => {
                assert(post.pool@[t as int] == pre.pool@[t as int]);
            },
            GetBlockOutcome::Acquired(s) => {
                let k = choose|k: int|
                    Self::get_block_evict_post(pre, post, device_num, block_num, s, k);
                let base = pre.disk_driver.log().len() as int;
                if t == s {
                    // a dirty victim is only reached after a full rotation
                    if k < n {
                        assert(s == pre.fl()[k]);
                        assert(!pre.in_flushed_prefix(k, s as int)) by {
                            if pre.in_flushed_prefix(k, s as int) {
                                let i = choose|i: int| 0 <= i < k && pre.fl()[i] == s as int;
                                assert(pre.fl()[i] != pre.fl()[k]);
                            }
                        }
                        assert(pre.pool_after_flush(k)[s as int] == pre.pool@[s as int]);
                        assert(false);
                    }
                    assert(s == pre.fl_rotated(n)[0]);
                    assert(pre.fl_rotated(n)[0] == pre.fl()[0]);
                    assert(post.disk_driver.log()[base] == pre.flushed_payloads(n)[0]);
                    assert(post.disk_driver.log()[base] == pre.pool@[t as int].payload());
                } else {
                    assert(post.pool@[t as int] == pre.pool_after_flush(k)[t as int]);
                    assert(pre.in_flushed_prefix(k, t as int)) by {
                        if !pre.in_flushed_prefix(k, t as int) {
                            assert(pre.pool_after_flush(k)[t as int] == pre.pool@[t as int]);
                        }
                    }
                    let i = choose|i: int| 0 <= i < k && pre.fl()[i] == t as int;
                    assert(post.disk_driver.log()[base + i] == pre.flushed_payloads(k)[i]);
                    assert(post.disk_driver.log()[base + i] == pre.pool@[t as int].payload());
                }
            },
        }
    }

    /// Exhaustion blocks: a miss while every buffer is held changes
    /// nothing and tells the caller to wait for any buffer to be freed.
    pub proof fn lemma_exhausted_blocks(
        pre: BufferSystem,
        post: BufferSystem,
        device_num: u64,
        block_num: u64,
        r: GetBlockOutcome,
    )
        requires
            pre.wf(),
            Self::get_block_post(pre, post, device_num, block_num, r),
            pre.lookup_spec(device_num, block_num) is None,
            pre.fl().len() == 0,
        ensures
            r is WaitForAnyBuffer,
            post == pre,
    {
    }

    /// A release unblocks a waiting miss: once some buffer has been
    /// released, an acquire that still misses no longer waits — it returns
    /// a buffer.
    pub proof fn lemma_release_unblocks(
        pre: BufferSystem,
        mid: BufferSystem,
        post: BufferSystem,
        buffer: usize,
        dirty: bool,
        device_num: u64,
        block_num: u64,
        r: GetBlockOutcome,
    )
        requires
            pre.wf(),
            Self::release_post(pre, mid, buffer, dirty),
            mid.lookup_spec(device_num, block_num) is None,
            Self::get_block_post(mid, post, device_num, block_num, r),
        ensures
            r is Acquired,
    {
        assert(mid.fl().len() > 0);
    }

    /// Exactly one flush: evicting the single free buffer while it holds a
    /// delayed write appends that buffer's payload to the disk log once,
    /// before the slot is reused.
    pub proof fn lemma_single_dirty_eviction(
        pre: BufferSystem,
        post: BufferSystem,
        device_num: u64,
        block_num: u64,
        s: usize,
    )
        requires
            pre.wf(),
            Self::get_block_post(pre, post, device_num, block_num, GetBlockOutcome::Acquired(s)),
            pre.lookup_spec(device_num, block_num) is None,
            pre.fl().len() == 1,
            pre.pool@[pre.fl()[0] as int].status is DelayedWriteToDisk,
        ensures
            s == pre.fl()[0],
            post.disk_driver.log() == pre.disk_driver.log().push(pre.pool@[s as int].payload()),
    {
        let k = choose|k: int| Self::get_block_evict_post(pre, post, device_num, block_num, s, k);
        if k == 0 {
            assert(s == pre.fl_rotated(0)[0]);
            assert(pre.fl_rotated(0) =~= pre.fl());
            assert(s == pre.fl()[0]);
            assert(!pre.in_flushed_prefix(0, s as int));
            assert(pre.pool_after_flush(0)[s as int] == pre.pool@[s as int]);
            assert(false);
        }
        assert(k == 1);
        assert(s == pre.fl_rotated(1)[0]);
        assert(pre.fl_rotated(1)[0] == pre.fl()[0]);
        assert(post.disk_driver.log() =~= pre.disk_driver.log().push(
            pre.pool@[s as int].payload(),
        )) by {
            assert(pre.flushed_payloads(1) =~= seq![pre.pool@[pre.fl()[0] as int].payload()]);
        }
    }

    /// Lookup idempotence: the result of a lookup is a function of the
    /// queues and the pool alone, so two lookups of the same block with no
    /// change in between agree on the underlying buffer.
    pub proof fn lemma_lookup_idempotent(
        self,
        device_num: u64,
        block_num: u64,
        r1: Option<usize>,
        r2: Option<usize>,
    )
        requires
            ({
                let chain = self.buckets()[self.home_bucket(device_num, block_num)];
                match find_match(self.pool@, chain, device_num, block_num) {
                    None => r1 is None,
                    Some(i) => r1 == Some(chain[i]),
                }
            }),
            ({
                let chain = self.buckets()[self.home_bucket(device_num, block_num)];
                match find_match(self.pool@, chain, device_num, block_num) {
                    None => r2 is None,
                    Some(i) => r2 == Some(chain[i]),
                }
            }),
        ensures
            r1 == r2,
    {
    }
}

} // verus!

