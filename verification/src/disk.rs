//! A mock disk driver that records every block payload written to it, so
//! that callers can state exactly which payloads were flushed and in what
//! order.

use vstd::prelude::*;

verus! {

/// A mock of a disk driver: it keeps a log of every payload handed to
/// `write`, in order.
pub struct DiskDriver {
    data: Vec<Vec<u8>>,
}

impl DiskDriver {
    /// The payloads written so far, oldest first.
    pub closed spec fn log(self) -> Seq<Seq<u8>> {
        self.data@.map_values(|p: Vec<u8>| p@)
    }

    pub fn new() -> (r: DiskDriver)
        ensures
            r.log() == Seq::<Seq<u8>>::empty(),
    {
        let r = DiskDriver { data: Vec::new() };
        proof {
            assert(r.log() =~= Seq::<Seq<u8>>::empty());
        }
        r
    }

    /// Appends one payload to the write log.
    pub fn write(&mut self, data: &Vec<u8>)
        ensures
            final(self).log() == old(self).log().push(data@),
    {
        let mut owned: Vec<u8> = Vec::new();
        let mut i: usize = 0;
        while i < data.len()
            invariant
                i <= data@.len(),
                owned@ == data@.take(i as int),
            decreases data@.len() - i,
        {
            proof {
                assert(data@.take(i + 1) =~= data@.take(i as int).push(data@[i as int]));
            }
            owned.push(data[i]);
            i = i + 1;
        }
        proof {
            assert(data@.take(data@.len() as int) =~= data@);
        }
        self.data.push(owned);
        proof {
            assert(self.log() =~= old(self).log().push(data@));
        }
    }

    /// How many writes have reached the disk.
    pub fn write_count(&self) -> (n: usize)
        ensures
            n == self.log().len(),
    {
        self.data.len()
    }

    /// The payload of the `i`th write, oldest first.
    pub fn get_write(&self, i: usize) -> (r: &Vec<u8>)
        requires
            i < self.log().len(),
        ensures
            r@ == self.log()[i as int],
    {
        &self.data[i]
    }
}

} // verus!
