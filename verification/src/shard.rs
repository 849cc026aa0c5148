//! The byte container for one shard: the big-endian symbols that one
//! codeword position contributes across all stripes of the payload.

use vstd::prelude::*;

verus! {

/// One shard of an encoded payload.
#[derive(Debug)]
pub struct Shard {
    /// The shard's bytes; two per stripe, big-endian.
    pub data: Vec<u8>,
}

impl View for Shard {
    type V = Seq<u8>;

    open spec fn view(&self) -> Seq<u8> {
        self.data@
    }
}

impl Shard {
    /// Wraps a byte vector as a shard.
    pub fn new(data: Vec<u8>) -> (r: Shard)
        ensures
            r@ == data@,
    {
        Shard { data }
    }

    /// The shard's length in bytes.
    pub fn len(&self) -> (r: usize)
        ensures
            r == self@.len(),
    {
        self.data.len()
    }

    /// The two bytes of chunk `i`.
    pub fn get_chunk(&self, i: usize) -> (r: [u8; 2])
        requires
            2 * i + 1 < self@.len(),
        ensures
            r@[0] == self@[2 * i],
            r@[1] == self@[2 * i + 1],
    {
        // reading the length first bounds the index inside the machine word
        let _len: usize = self.data.len();
        [self.data[2 * i], self.data[2 * i + 1]]
    }

    /// Overwrites the two bytes of chunk `i`.
    pub fn set_chunk(&mut self, i: usize, chunk: [u8; 2])
        requires
            2 * i + 1 < old(self)@.len(),
        ensures
            final(self)@ == old(self)@.update(2 * i as int, chunk@[0]).update(
                2 * i + 1 as int,
                chunk@[1],
            ),
    {
        // reading the length first bounds the index inside the machine word
        let _len: usize = self.data.len();
        self.data.set(2 * i, chunk[0]);
        self.data.set(2 * i + 1, chunk[1]);
    }

    /// A borrowed view of the shard's bytes.
    pub fn as_bytes(&self) -> (r: &Vec<u8>)
        ensures
            r@ == self@,
    {
        &self.data
    }
}

} // verus!
