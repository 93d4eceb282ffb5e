//! A small folding hasher that maps byte strings to a bounded range, so that
//! a value can be placed into one of a fixed number of hash queues.

use vstd::prelude::*;

verus! {

/// The sum of a sequence of bytes, as an unbounded integer.
pub open spec fn byte_sum(s: Seq<u8>) -> int
    decreases s.len(),
{
    if s.len() == 0 {
        0
    } else {
        byte_sum(s.drop_last()) + s.last()
    }
}

/// A hasher whose result always lies below `positions`, so that it can index
/// into a fixed array of `positions` queues.
pub struct BufferHasher {
    positions: u64,
    value: u64,
}

impl BufferHasher {
    /// The number of positions the hash is folded into.
    pub closed spec fn positions(self) -> u64 {
        self.positions
    }

    /// The value accumulated so far.
    pub closed spec fn value(self) -> u64 {
        self.value
    }

    pub open spec fn wf(self) -> bool {
        &&& self.positions() > 0
        &&& self.value() < self.positions()
    }

    pub fn new(positions: u64) -> (r: BufferHasher)
        requires
            positions > 0,
        ensures
            r.wf(),
            r.positions() == positions,
            r.value() == 0,
    {
        BufferHasher { positions, value: 0 }
    }

    /// Replaces the current value with the sum of `bytes`, reduced modulo
    /// `positions`.
    pub fn write(&mut self, bytes: &Vec<u8>)
        requires
            old(self).wf(),
        ensures
            final(self).wf(),
            final(self).positions() == old(self).positions(),
            final(self).value() == byte_sum(bytes@) % (old(self).positions() as int),
    {
        let mut message: u128 = 0;
        let mut i: usize = 0;
        while i < bytes.len()
            invariant
                i <= bytes@.len(),
                message == byte_sum(bytes@.take(i as int)),
                message <= 255 * i,
            decreases bytes@.len() - i,
        {
            proof {
                assert(bytes@.take(i + 1).drop_last() =~= bytes@.take(i as int));
                assert(bytes@.take(i + 1).last() == bytes@[i as int]);
            }
            message = message + bytes[i] as u128;
            i = i + 1;
        }
        proof {
            assert(bytes@.take(bytes@.len() as int) =~= bytes@);
        }
        self.value = (message % (self.positions as u128)) as u64;
    }

    /// The value the hasher has folded its input down to.
    pub fn finish(&self) -> (r: u64)
        ensures
            r == self.value(),
    {
        self.value
    }
}

/// A builder that hands out hashers bounded by a fixed number of positions.
pub struct BuildBufferHasher {
    pub positions: u64,
}

impl BuildBufferHasher {
    pub fn build_hasher(&self) -> (r: BufferHasher)
        requires
            self.positions > 0,
        ensures
            r.wf(),
            r.positions() == self.positions,
            r.value() == 0,
    {
        BufferHasher::new(self.positions)
    }
}

} // verus!
