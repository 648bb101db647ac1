//! Trusted items around `memmap2::MmapMut`, the byte region that backs a value block.
use vstd::prelude::*;
use memmap2::MmapMut;

verus! {

#[verifier::external_type_specification]
#[verifier::external_body]
pub struct ExMmapMut(MmapMut);

/// The bytes that a memory map holds, in order.
pub uninterp spec fn mapped_bytes(m: MmapMut) -> Seq<u8>;

/// Calls `memmap2::MmapMut::map_anon`: a private anonymous mapping of `len` bytes.
/// On success the mapping holds exactly `len` bytes, and they are all zero: the source
/// passes `MAP_ANON` to `mmap`, whose pages start zero-filled. Which calls fail
/// (the system refusing the mapping) is left unsaid.
#[verifier::external_body]
pub(crate) fn map_anonymous(len: usize) -> (r: Result<MmapMut, std::io::Error>)
    ensures
        r matches Ok(m) ==> mapped_bytes(m) == Seq::new(len as nat, |i: int| 0u8),
{
    MmapMut::map_anon(len)
}

/// Reads the bytes of a mapping through `Deref for MmapMut`: the slice is the mapping's contents.
#[verifier::external_body]
pub(crate) fn mapped_slice(m: &MmapMut) -> (s: &[u8])
    ensures
        s@ == mapped_bytes(*m),
{
    &m[..]
}

/// Writes the bytes of a mapping through `DerefMut for MmapMut`: the slice starts as the
/// mapping's contents, and what it holds at the end is what the mapping holds.
#[verifier::external_body]
pub(crate) fn mapped_slice_mut(m: &mut MmapMut) -> (s: &mut [u8])
    ensures
        s@ == mapped_bytes(*old(m)),
        mapped_bytes(*final(m)) == final(s)@,
{
    &mut m[..]
}

/// Calls `memmap2::MmapMut::flush`, which syncs the mapping (`msync`) and leaves its contents as
/// they are. Its documentation promises that on success every change to a map of a file is
/// stored in the file; the file is outside what Verus sees, so no clause states it, and whether
/// the call fails is left unsaid.
#[verifier::external_body]
pub(crate) fn flush_mapping(m: &MmapMut) -> (r: Result<(), std::io::Error>)
{
    m.flush()
}


} // verus!
