//! A view of a byte buffer as a block of `u64` values.
use vstd::bytes::u64_to_le_bytes;
use vstd::prelude::*;

use crate::storage::{copy_into, lemma_write_value, slice_range, values_of};

verus! {

/// The size in bytes of the buffers that value blocks are made over.
pub const BLOCK_BYTES: usize = 1048576;

/// A byte buffer read and written as `u64` values, eight little-endian bytes each; bytes past the
/// last whole value are left alone.
pub struct ValueBlock<'a> {
    /// The buffer.
    pub data: &'a mut [u8],
}

impl<'a> ValueBlock<'a> {
    /// The values of the block.
    pub open spec fn values(&self) -> Seq<u64> {
        values_of(self.data@)
    }

    /// A block over `raw`; what the block writes is what `raw` holds afterwards.
    pub fn new(raw: &'a mut [u8]) -> (vb: Self)
        ensures
            vb.data@ == old(raw)@,
            final(vb.data)@ == final(raw)@,
    {
        ValueBlock { data: raw }
    }

    /// Writes `value` as value `index`.
    pub fn write(&mut self, index: usize, value: u64)
        requires
            index < old(self).values().len(),
        ensures
            final(self).values() == old(self).values().update(index as int, value),
            final(self).data@.len() == old(self).data@.len(),
            forall|k: int| 0 <= k < old(self).data@.len() && !(8 * index <= k < 8 * index + 8) ==> final(self).data@[k]
                == old(self).data@[k],
            final(final(self).data)@ == final(old(self).data)@,
    {
        let n = self.data.len();
        assert(index * 8 + 8 <= n);
        let bytes = u64_to_le_bytes(value);
        let ghost before = self.data@;
        copy_into(self.data, index * 8, &bytes);
        proof {
            lemma_write_value(before, self.data@, index as int, value);
        }
    }

    /// Value `index`.
    pub fn read(&self, index: usize) -> (v: u64)
        requires
            index < self.values().len(),
        ensures
            v == self.values()[index as int],
    {
        let s: &[u8] = self.data;
        let n = s.len();
        assert(index * 8 + 8 <= n);
        vstd::bytes::u64_from_le_bytes(slice_range(s, index * 8, index * 8 + 8))
    }

    /// Every value of the block, in order.
    pub fn as_slice(&self) -> (v: Vec<u64>)
        ensures
            v@ == self.values(),
    {
        let n = self.data.len() / 8;
        let mut v: Vec<u64> = Vec::new();
        let mut i: usize = 0;
        while i < n
            invariant
                n == self.values().len(),
                i <= n,
                v@ == self.values().take(i as int),
            decreases n - i,
        {
            v.push(self.read(i));
            assert(self.values().take(i + 1) =~= self.values().take(i as int).push(self.values()[i as int]));
            i = i + 1;
        }
        assert(self.values().take(n as int) =~= self.values());
        v
    }
}

} // verus!
