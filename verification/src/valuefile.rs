//! A file of value blocks, mapped into memory.
use memmap2::MmapMut;
use std::time::Instant;
use vstd::bytes::{spec_u64_from_le_bytes, spec_u64_to_le_bytes, u64_to_le_bytes};
use vstd::prelude::*;

use crate::mapped::{flush_mapping, mapped_bytes, mapped_slice, mapped_slice_mut};
use crate::storage::{copy_into, slice_range};
use crate::valueblock::{ValueBlock, BLOCK_BYTES};

verus! {

#[verifier::external_type_specification]
#[verifier::external_body]
pub struct ExInstant(Instant);

/// Calls `Instant::now`. What it returns depends on the clock, so nothing is stated of it.
#[verifier::external_body]
fn now() -> Instant {
    Instant::now()
}

/// Calls `Instant::elapsed` on `since`, in whole seconds. What it returns depends on the clock,
/// so nothing is stated of it.
#[verifier::external_body]
fn elapsed_secs(since: &Instant) -> u64 {
    since.elapsed().as_secs()
}

/// The byte position of value `offset` of block `block_idx`.
pub open spec fn byte_position(block_idx: usize, offset: usize) -> int {
    block_idx * BLOCK_BYTES + offset * 8
}

/// A value file: a memory map of `size` bytes, read and written as blocks of `BLOCK_BYTES` bytes
/// holding `u64` values, eight little-endian bytes each.
pub struct ValueFile {
    mmap: MmapMut,
    path: String,
    last_write: Instant,
    size: usize,
}

impl ValueFile {
    /// The bytes of the file.
    pub closed spec fn bytes(&self) -> Seq<u8> {
        mapped_bytes(self.mmap)
    }

    /// The size of the file in bytes.
    pub closed spec fn size_view(&self) -> nat {
        self.size as nat
    }

    /// The path of the file.
    pub closed spec fn path_view(&self) -> Seq<char> {
        self.path@
    }

    /// The invariant: the map holds `size` bytes.
    pub closed spec fn wf(&self) -> bool {
        mapped_bytes(self.mmap).len() == self.size
    }

    /// A value file over `mmap`, the mapping of the file at `path`; opening and mapping the
    /// file is the caller's.
    pub fn from_mapping(path: String, mmap: MmapMut) -> (f: Self)
        ensures
            f.wf(),
            f.bytes() == mapped_bytes(mmap),
            f.size_view() == mapped_bytes(mmap).len(),
            f.path_view() == path@,
    {
        let size = mapped_slice(&mmap).len();
        ValueFile { mmap, path, last_write: now(), size }
    }

    /// Block `index`, when the file holds all of it.
    pub fn get_block(&mut self, index: usize) -> (r: Option<ValueBlock<'_>>)
        requires
            old(self).wf(),
            index * BLOCK_BYTES + BLOCK_BYTES <= usize::MAX,
        ensures
            (index + 1) * BLOCK_BYTES > old(self).size_view() ==> r is None && *final(self) == *old(self),
            (index + 1) * BLOCK_BYTES <= old(self).size_view() ==> (r matches Some(vb) && vb.data@ == old(self).bytes().subrange(
                index * BLOCK_BYTES,
                (index + 1) * BLOCK_BYTES,
            ) && final(self).bytes() == old(self).bytes().subrange(0, index * BLOCK_BYTES) + final(vb.data)@
                + old(self).bytes().subrange((index + 1) * BLOCK_BYTES, old(self).size_view() as int)
                && (final(vb.data)@.len() == BLOCK_BYTES ==> final(self).wf())),
            final(self).path_view() == old(self).path_view(),
            final(self).size_view() == old(self).size_view(),
    {
        let start = index * BLOCK_BYTES;
        let end = start + BLOCK_BYTES;
        if end > self.size {
            return None;
        }
        let all = mapped_slice_mut(&mut self.mmap);
        let (_head, rest) = all.split_at_mut(start);
        let (block, _tail) = rest.split_at_mut(BLOCK_BYTES);
        Some(ValueBlock::new(block))
    }

    /// What writing `value` as value `offset` of block `block_idx` does: those eight bytes hold
    /// `value`, little-endian, and every other byte stays.
    pub open spec fn writes(&self, later: &Self, block_idx: usize, offset: usize, value: u64) -> bool {
        let p = byte_position(block_idx, offset);
        &&& later.wf()
        &&& later.path_view() == self.path_view()
        &&& later.size_view() == self.size_view()
        &&& later.bytes().subrange(p, p + 8) == spec_u64_to_le_bytes(value)
        &&& forall|k: int| 0 <= k < self.size_view() && !(p <= k < p + 8) ==> #[trigger] later.bytes()[k] == self.bytes()[k]
    }

    /// The value that reading value `offset` of block `block_idx` gives, when the file holds it.
    pub open spec fn value_read(&self, block_idx: usize, offset: usize) -> u64 {
        let p = byte_position(block_idx, offset);
        spec_u64_from_le_bytes(self.bytes().subrange(p, p + 8))
    }

    /// Writes `value` as value `offset` of block `block_idx`.
    pub fn write_value(&mut self, block_idx: usize, offset: usize, value: u64) -> (r: Result<(), std::io::Error>)
        requires
            old(self).wf(),
            byte_position(block_idx, offset) + 8 <= old(self).size_view(),
        ensures
            r is Ok,
            old(self).writes(&*final(self), block_idx, offset, value),
    {
        let byte_offset = block_idx * BLOCK_BYTES + offset * 8;
        let bytes = u64_to_le_bytes(value);
        let s = mapped_slice_mut(&mut self.mmap);
        copy_into(s, byte_offset, &bytes);
        self.last_write = now();
        Ok(())
    }

    /// Value `offset` of block `block_idx`, when the file holds it.
    pub fn read_value(&self, block_idx: usize, offset: usize) -> (r: Option<u64>)
        requires
            self.wf(),
            byte_position(block_idx, offset) + 8 <= usize::MAX,
        ensures
            byte_position(block_idx, offset) + 8 > self.size_view() ==> r is None,
            byte_position(block_idx, offset) + 8 <= self.size_view() ==> r == Some(self.value_read(block_idx, offset)),
    {
        let byte_offset = block_idx * BLOCK_BYTES + offset * 8;
        if byte_offset + 8 > self.size {
            return None;
        }
        let s = mapped_slice(&self.mmap);
        Some(vstd::bytes::u64_from_le_bytes(slice_range(s, byte_offset, byte_offset + 8)))
    }

    /// Syncs the map when `elapsed_secs`, the whole seconds since the last write, is at least 1,
    /// and then counts from now; the bytes stay as they are.
    pub fn flush_after(&mut self, elapsed_secs: u64) -> (r: Result<(), std::io::Error>)
        requires
            old(self).wf(),
        ensures
            final(self).wf(),
            final(self).bytes() == old(self).bytes(),
            final(self).path_view() == old(self).path_view(),
            final(self).size_view() == old(self).size_view(),
            elapsed_secs < 1 ==> r is Ok && *final(self) == *old(self),
    {
        if elapsed_secs >= 1 {
            match flush_mapping(&self.mmap) {
                Ok(()) => {},
                Err(e) => return Err(e),
            }
            self.last_write = now();
        }
        Ok(())
    }

    /// Syncs the map when a second or more has passed since the last write; the bytes stay as they are.
    pub fn flush_if_idle(&mut self) -> (r: Result<(), std::io::Error>)
        requires
            old(self).wf(),
        ensures
            final(self).wf(),
            final(self).bytes() == old(self).bytes(),
            final(self).path_view() == old(self).path_view(),
            final(self).size_view() == old(self).size_view(),
    {
        let secs = elapsed_secs(&self.last_write);
        self.flush_after(secs)
    }
}

impl ValueFile {
    /// The size of a value file fits in a `usize`, so every position below it does too.
    pub proof fn lemma_size(&self)
        ensures
            self.size_view() <= usize::MAX,
    {
    }

    /// After a write, reading the value written gives it back, and a value whose bytes do not
    /// overlap it reads as before.
    pub proof fn lemma_read_after_write(
        &self,
        later: &Self,
        block_idx: usize,
        offset: usize,
        value: u64,
        other_block: usize,
        other_offset: usize,
    )
        requires
            self.wf(),
            byte_position(block_idx, offset) + 8 <= self.size_view(),
            self.writes(later, block_idx, offset, value),
            byte_position(other_block, other_offset) + 8 <= self.size_view(),
            byte_position(other_block, other_offset) + 8 <= byte_position(block_idx, offset) || byte_position(block_idx, offset)
                + 8 <= byte_position(other_block, other_offset),
        ensures
            later.value_read(block_idx, offset) == value,
            later.value_read(other_block, other_offset) == self.value_read(other_block, other_offset),
    {
        vstd::bytes::lemma_auto_spec_u64_to_from_le_bytes();
        let q = byte_position(other_block, other_offset);
        assert(later.bytes().subrange(q, q + 8) =~= self.bytes().subrange(q, q + 8)) by {
            assert forall|k: int| 0 <= k < 8 implies #[trigger] later.bytes().subrange(q, q + 8)[k] == self.bytes().subrange(q, q + 8)[k] by {
                assert(later.bytes()[q + k] == self.bytes()[q + k]);
            }
        }
    }
}

} // verus!
