//! Value storage: blocks of values in memory maps, files of blocks, and a store of files.
use memmap2::MmapMut;
use vstd::bytes::{spec_u64_from_le_bytes, spec_u64_to_le_bytes, u64_to_le_bytes};
use vstd::prelude::*;

use crate::error::{Result, TsDbError};
use crate::mapped::{flush_mapping, map_anonymous, mapped_bytes, mapped_slice, mapped_slice_mut};
use crate::{Value, VALUES_PER_BLOCK, VALUE_BYTES, VBLOCK_SIZE};

verus! {

/// The value that the eight bytes of `bytes` from `8 * i` on hold, little-endian.
pub open spec fn value_at(bytes: Seq<u8>, i: int) -> u64 {
    spec_u64_from_le_bytes(bytes.subrange(8 * i, 8 * i + 8))
}

/// The values that `bytes` holds, eight bytes each.
pub open spec fn values_of(bytes: Seq<u8>) -> Seq<u64> {
    Seq::new(bytes.len() / 8, |i: int| value_at(bytes, i))
}

/// Copies `src` into `dst` from position `at` on.
pub fn copy_into(dst: &mut [u8], at: usize, src: &Vec<u8>)
    requires
        at + src@.len() <= old(dst)@.len(),
    ensures
        final(dst)@.len() == old(dst)@.len(),
        final(dst)@.subrange(at as int, at + src@.len()) == src@,
        forall|k: int| 0 <= k < old(dst)@.len() && !(at <= k < at + src@.len()) ==> final(dst)@[k] == old(dst)@[k],
{
    let dlen = dst.len();
    let mut k: usize = 0;
    while k < src.len()
        invariant
            dlen == dst@.len(),
            at + src@.len() <= dst@.len(),
            dst@.len() == old(dst)@.len(),
            k <= src@.len(),
            forall|j: int| 0 <= j < k ==> dst@[at + j] == src@[j],
            forall|j: int| 0 <= j < dst@.len() && !(at <= j < at + k) ==> dst@[j] == old(dst)@[j],
        decreases src@.len() - k,
    {
        dst[at + k] = src[k];
        k = k + 1;
    }
    assert(dst@.subrange(at as int, at + src@.len()) =~= src@);
}

/// Replacing bytes `8 * i .. 8 * i + 8` with the encoding of `v` sets value `i` to `v` and keeps the others.
pub proof fn lemma_write_value(old_bytes: Seq<u8>, new_bytes: Seq<u8>, i: int, v: u64)
    requires
        old_bytes.len() == new_bytes.len(),
        0 <= i,
        8 * i + 8 <= old_bytes.len(),
        new_bytes.subrange(8 * i, 8 * i + 8) == spec_u64_to_le_bytes(v),
        forall|k: int| 0 <= k < old_bytes.len() && !(8 * i <= k < 8 * i + 8) ==> new_bytes[k] == old_bytes[k],
    ensures
        values_of(new_bytes) == values_of(old_bytes).update(i, v),
{
    vstd::bytes::lemma_auto_spec_u64_to_from_le_bytes();
    let a = values_of(new_bytes);
    let b = values_of(old_bytes).update(i, v);
    assert forall|j: int| 0 <= j < a.len() implies a[j] == b[j] by {
        if j != i {
            assert(new_bytes.subrange(8 * j, 8 * j + 8) =~= old_bytes.subrange(8 * j, 8 * j + 8));
        }
    }
    assert(a =~= b);
}

/// A block of `VALUES_PER_BLOCK` values in a memory map of `VBLOCK_SIZE` bytes: an anonymous
/// map for a new block, or the map of a block of a data file (`from_mapping`).
pub struct VBlock {
    data: MmapMut,
    used_bytes: usize,
}

impl View for VBlock {
    type V = Seq<Value>;

    /// The values of the block, in order.
    closed spec fn view(&self) -> Seq<Value> {
        values_of(mapped_bytes(self.data))
    }
}

impl VBlock {
    /// The invariant: the map holds `VBLOCK_SIZE` bytes, and the bytes in use are a whole number of values.
    pub closed spec fn wf(&self) -> bool {
        &&& mapped_bytes(self.data).len() == VBLOCK_SIZE
        &&& self.used_bytes <= VBLOCK_SIZE
        &&& self.used_bytes % 8 == 0
    }

    /// The bytes up to the end of the last value written.
    pub closed spec fn used(&self) -> nat {
        self.used_bytes as nat
    }

    /// The bytes of the block's map.
    pub closed spec fn bytes(&self) -> Seq<u8> {
        mapped_bytes(self.data)
    }

    /// The values of a block are its bytes read eight at a time.
    pub proof fn lemma_bytes(&self)
        ensures
            self@ == values_of(self.bytes()),
    {
    }

    /// A block over `data`, the map of a block of a data file: its values are what the file
    /// holds there. A map of another size than `VBLOCK_SIZE` is `Storage`.
    pub fn from_mapping(data: MmapMut) -> (r: Result<Self>)
        ensures
            mapped_bytes(data).len() == VBLOCK_SIZE ==> (r matches Ok(b) && b.wf() && b.bytes() == mapped_bytes(data)
                && b.used() == 0),
            mapped_bytes(data).len() != VBLOCK_SIZE ==> (r matches Err(TsDbError::Storage(_))),
    {
        let n = mapped_slice(&data).len();
        if n != VBLOCK_SIZE {
            return Err(TsDbError::Storage(String::from_str("a value block maps VBLOCK_SIZE bytes")));
        }
        Ok(VBlock { data, used_bytes: 0 })
    }

    /// A block holds `VALUES_PER_BLOCK` values.
    pub proof fn lemma_len(&self)
        requires
            self.wf(),
        ensures
            self@.len() == VALUES_PER_BLOCK,
    {
    }

    /// A new block: every value is 0.
    pub fn new() -> (r: Result<Self>)
        ensures
            r matches Ok(b) ==> b.wf() && b@ == Seq::new(VALUES_PER_BLOCK as nat, |i: int| 0u64)
                && b.used() == 0,
            r matches Err(e) ==> e is Io,
    {
        match map_anonymous(VBLOCK_SIZE) {
            Ok(data) => {
                let b = VBlock { data, used_bytes: 0 };
                proof {
                    let bytes = mapped_bytes(b.data);
                    assert forall|i: int| 0 <= i < VALUES_PER_BLOCK implies #[trigger] values_of(bytes)[i]
                        == 0u64 by {
                        assert(bytes.subrange(8 * i, 8 * i + 8) =~= seq![0u8, 0u8, 0u8, 0u8, 0u8, 0u8, 0u8, 0u8]);
                        vstd::bytes::lemma_auto_spec_u64_to_from_le_bytes();
                        assert(spec_u64_to_le_bytes(0) =~= seq![0u8, 0u8, 0u8, 0u8, 0u8, 0u8, 0u8, 0u8])
                            by {
                            vstd::bytes::spec_u64_to_le_bytes_to_open(0);
                            assert(0u64 & 0xff == 0 && (0u64 >> 8) & 0xff == 0 && (0u64 >> 16) & 0xff == 0
                                && (0u64 >> 24) & 0xff == 0 && (0u64 >> 32) & 0xff == 0 && (0u64 >> 40)
                                & 0xff == 0 && (0u64 >> 48) & 0xff == 0 && (0u64 >> 56) & 0xff == 0)
                                by (bit_vector);
                        }
                    }
                    assert(values_of(bytes) =~= Seq::new(VALUES_PER_BLOCK as nat, |i: int| 0u64));
                }
                Ok(b)
            },
            Err(e) => Err(TsDbError::Io(e)),
        }
    }

    /// Writes `value` at position `seq`; a position past the block is `ValueBlockFull`.
    pub fn write_value(&mut self, seq: usize, value: Value) -> (r: Result<()>)
        requires
            old(self).wf(),
        ensures
            final(self).wf(),
            seq < VALUES_PER_BLOCK ==> r is Ok && final(self)@ == old(self)@.update(seq as int, value)
                && final(self).used() == (if old(self).used() < 8 * seq + 8 { 8 * seq + 8 } else { old(self).used() as int }),
            seq >= VALUES_PER_BLOCK ==> (r matches Err(TsDbError::ValueBlockFull)) && final(self)@ == old(self)@
                && final(self).used() == old(self).used(),
    {
        if seq >= VALUES_PER_BLOCK {
            return Err(TsDbError::ValueBlockFull);
        }
        let offset = seq * VALUE_BYTES;
        let bytes = u64_to_le_bytes(value);
        let ghost old_bytes = mapped_bytes(self.data);
        let s = mapped_slice_mut(&mut self.data);
        copy_into(s, offset, &bytes);
        proof {
            lemma_write_value(old_bytes, mapped_bytes(self.data), seq as int, value);
        }
        if offset + VALUE_BYTES > self.used_bytes {
            self.used_bytes = offset + VALUE_BYTES;
        }
        Ok(())
    }

    /// The value at position `seq`; a position past the block is `InvalidSeq`.
    pub fn read_value(&self, seq: usize) -> (r: Result<Value>)
        requires
            self.wf(),
        ensures
            seq < VALUES_PER_BLOCK ==> r == Ok::<Value, TsDbError>(self@[seq as int]),
            seq >= VALUES_PER_BLOCK ==> (r matches Err(TsDbError::InvalidSeq(s)) && s == seq),
    {
        if seq >= VALUES_PER_BLOCK {
            return Err(TsDbError::InvalidSeq(seq as u64));
        }
        let offset = seq * VALUE_BYTES;
        let s = mapped_slice(&self.data);
        let v = vstd::bytes::u64_from_le_bytes(slice_range(s, offset, offset + VALUE_BYTES));
        Ok(v)
    }

    /// Whether the block has a position `seq`.
    pub fn has_space_for(&self, seq: usize) -> (b: bool)
        ensures
            b == (seq < VALUES_PER_BLOCK),
    {
        seq < VALUES_PER_BLOCK
    }

    /// The bytes up to the end of the last value written.
    pub fn used_bytes(&self) -> (n: usize)
        ensures
            n == self.used(),
    {
        self.used_bytes
    }

    /// The bytes after the end of the last value written.
    pub fn available_bytes(&self) -> (n: usize)
        requires
            self.wf(),
        ensures
            n == VBLOCK_SIZE - self.used(),
    {
        VBLOCK_SIZE - self.used_bytes
    }

    /// Syncs the block's memory map; its values stay as they are.
    pub fn flush(&self) -> (r: Result<()>)
        ensures
            r matches Err(e) ==> e is Io,
    {
        match flush_mapping(&self.data) {
            Ok(()) => Ok(()),
            Err(e) => Err(TsDbError::Io(e)),
        }
    }
}

/// The part `s[from..to]` of a slice.
pub fn slice_range(s: &[u8], from: usize, to: usize) -> (r: &[u8])
    requires
        from <= to <= s@.len(),
    ensures
        r@ == s@.subrange(from as int, to as int),
{
    let r = &s[from..to];
    r
}

} // verus!

verus! {

/// The values of a sequence of blocks, one block after the other.
pub open spec fn blocks_values(blocks: Seq<VBlock>) -> Seq<Value> {
    Seq::new(
        (blocks.len() * VALUES_PER_BLOCK) as nat,
        |p: int| blocks[p / VALUES_PER_BLOCK as int]@[p % VALUES_PER_BLOCK as int],
    )
}

/// The sum of a sequence of numbers.
pub open spec fn sum_nat(s: Seq<nat>) -> nat
    decreases s.len(),
{
    if s.len() == 0 {
        0
    } else {
        sum_nat(s.drop_last()) + s.last()
    }
}

/// `n` zero values.
pub open spec fn zeros(n: nat) -> Seq<Value> {
    Seq::new(n, |i: int| 0u64)
}

/// A value file: up to `BLOCKS_PER_FILE` blocks, `VALUES_PER_BLOCK` values each; position `p`
/// is in block `p / VALUES_PER_BLOCK`.
pub struct VFile {
    file_path: String,
    blocks: Vec<VBlock>,
    current_block_index: usize,
}

impl View for VFile {
    type V = Seq<Value>;

    /// The values of the file's blocks, in order.
    closed spec fn view(&self) -> Seq<Value> {
        blocks_values(self.blocks@)
    }
}

impl VFile {
    /// The invariant: one to `BLOCKS_PER_FILE` well-formed blocks.
    pub closed spec fn wf(&self) -> bool {
        &&& 1 <= self.blocks@.len() <= crate::BLOCKS_PER_FILE
        &&& self.current_block_index < self.blocks@.len()
        &&& forall|i: int| 0 <= i < self.blocks@.len() ==> (#[trigger] self.blocks@[i]).wf()
    }

    /// The path of the file.
    pub closed spec fn path(&self) -> Seq<char> {
        self.file_path@
    }

    /// The bytes in use of each block.
    pub closed spec fn used_per_block(&self) -> Seq<nat> {
        self.blocks@.map_values(|b: VBlock| b.used())
    }

    /// The number of blocks.
    pub closed spec fn block_count(&self) -> nat {
        self.blocks@.len()
    }

    /// The bytes of block `i`.
    pub closed spec fn block_bytes(&self, i: int) -> Seq<u8> {
        self.blocks@[i].bytes()
    }

    /// The values of block `i` are its bytes read eight at a time.
    pub proof fn lemma_block(&self, i: int, k: int)
        requires
            self.wf(),
            0 <= i < self.block_count(),
            0 <= k < VALUES_PER_BLOCK,
        ensures
            self.block_bytes(i).len() == VBLOCK_SIZE,
            self@[i * VALUES_PER_BLOCK + k] == value_at(self.block_bytes(i), k),
    {
        let p = i * VALUES_PER_BLOCK + k;
        vstd::arithmetic::div_mod::lemma_fundamental_div_mod_converse(p, VALUES_PER_BLOCK as int, i, k);
        assert(self.blocks@[i].wf());
    }

    /// Puts `block` in place of block `index`.
    pub fn set_block(&mut self, index: usize, block: VBlock)
        requires
            old(self).wf(),
            index < old(self).block_count(),
            block.wf(),
        ensures
            final(self).wf(),
            final(self).path() == old(self).path(),
            final(self).block_count() == old(self).block_count(),
            final(self).block_bytes(index as int) == block.bytes(),
            forall|i: int| 0 <= i < old(self).block_count() && i != index ==> #[trigger] final(self).block_bytes(i) == old(self).block_bytes(i),
            final(self)@.len() == old(self)@.len(),
            forall|p: int| 0 <= p < old(self)@.len() && p / VALUES_PER_BLOCK as int != index ==> #[trigger] final(self)@[p] == old(self)@[p],
            forall|p: int| 0 <= p < old(self)@.len() && p / VALUES_PER_BLOCK as int == index ==> #[trigger] final(self)@[p] == block@[p % VALUES_PER_BLOCK as int],
    {
        self.blocks.set(index, block);
    }

    /// A file holds its blocks' values: at least one block, and no more than `VALUES_PER_FILE` values.
    pub proof fn lemma_len(&self)
        requires
            self.wf(),
        ensures
            self@.len() == self.block_count() * VALUES_PER_BLOCK,
            self.block_count() >= 1,
            self@.len() <= crate::VALUES_PER_FILE,
    {
    }

    /// A file of one block of zeros, at `file_path`. Creating its directory is the caller's.
    pub fn new(file_path: String) -> (r: Result<Self>)
        ensures
            r matches Ok(f) ==> f.wf() && f@ == zeros(VALUES_PER_BLOCK as nat) && f.path() == file_path@
                && f.block_count() == 1 && f.used_per_block() == seq![0nat],
            r matches Err(e) ==> e is Io,
    {
        let b = match VBlock::new() {
            Ok(b) => b,
            Err(e) => return Err(e),
        };
        let mut blocks: Vec<VBlock> = Vec::new();
        blocks.push(b);
        let f = VFile { file_path, blocks, current_block_index: 0 };
        assert(f@ =~= zeros(VALUES_PER_BLOCK as nat));
        assert(f.used_per_block() =~= seq![0nat]);
        Ok(f)
    }

    /// Writes `value` at position `seq`, adding zero blocks up to the one that holds it.
    /// A position past the file's size limit is `FileSizeLimitExceeded`; a block that cannot
    /// be mapped is `Io`, with the blocks added so far kept.
    pub fn write_value(&mut self, seq: usize, value: Value) -> (r: Result<()>)
        requires
            old(self).wf(),
        ensures
            final(self).wf(),
            final(self).path() == old(self).path(),
            seq >= crate::VALUES_PER_FILE ==> (r matches Err(TsDbError::FileSizeLimitExceeded)) && final(self)@
                == old(self)@,
            seq < crate::VALUES_PER_FILE && r is Ok ==> final(self)@ == (old(self)@ + zeros(
                (final(self)@.len() - old(self)@.len()) as nat)).update(seq as int, value) && final(self)@.len()
                == (if old(self)@.len() > seq { old(self)@.len() as int } else { (seq / VALUES_PER_BLOCK
                + 1) * VALUES_PER_BLOCK }),
            seq < crate::VALUES_PER_FILE && r is Err ==> (r matches Err(e) && e is Io) && old(self)@.len()
                <= final(self)@.len() <= seq && final(self)@ == old(self)@ + zeros(
                (final(self)@.len() - old(self)@.len()) as nat),
    {
        if seq >= crate::VALUES_PER_FILE {
            return Err(TsDbError::FileSizeLimitExceeded);
        }
        let block_index = seq / VALUES_PER_BLOCK;
        let ghost old_view = self@;
        while block_index >= self.blocks.len()
            invariant
                self.wf(),
                seq < crate::VALUES_PER_FILE,
                block_index == seq / VALUES_PER_BLOCK,
                self.path() == old(self).path(),
                old_view == old(self)@,
                old_view.len() <= self@.len(),
                self@ == old_view + zeros((self@.len() - old_view.len()) as nat),
                self.blocks@.len() <= block_index + 1 || self@ == old_view,
            decreases block_index + 1 - self.blocks@.len(),
        {
            let b = match VBlock::new() {
                Ok(b) => b,
                Err(e) => {
                    return Err(e);
                },
            };
            let ghost before = self.blocks@;
            let ghost before_view = self@;
            self.blocks.push(b);
            proof {
                assert(self.blocks@ == before.push(b));
                let nv = old_view + zeros((self@.len() - old_view.len()) as nat);
                assert forall|p: int| 0 <= p < self@.len() implies #[trigger] self@[p] == nv[p] by {
                    let bi = p / VALUES_PER_BLOCK as int;
                    if bi < before.len() {
                        assert(self.blocks@[bi] == before[bi]);
                        assert(self@[p] == before_view[p]);
                    } else {
                        assert(self.blocks@[bi] == b);
                    }
                }
                assert(self@ =~= nv);
            }
        }
        let ghost grown = self@;
        self.blocks[block_index].write_value(seq % VALUES_PER_BLOCK, value);
        if block_index > self.current_block_index {
            self.current_block_index = block_index;
        }
        Ok(())
    }

    /// The value at position `seq`; a position past the file's blocks is `InvalidSeq`.
    pub fn read_value(&self, seq: usize) -> (r: Result<Value>)
        requires
            self.wf(),
        ensures
            seq < self@.len() ==> r == Ok::<Value, TsDbError>(self@[seq as int]),
            seq >= self@.len() ==> (r matches Err(TsDbError::InvalidSeq(s)) && s == seq),
    {
        let block_index = seq / VALUES_PER_BLOCK;
        if block_index >= self.blocks.len() {
            return Err(TsDbError::InvalidSeq(seq as u64));
        }
        self.blocks[block_index].read_value(seq % VALUES_PER_BLOCK)
    }

    /// The bytes in use, summed over the blocks.
    pub fn total_size(&self) -> (n: usize)
        requires
            self.wf(),
        ensures
            n == sum_nat(self.used_per_block()),
    {
        let mut total: usize = 0;
        let mut i: usize = 0;
        while i < self.blocks.len()
            invariant
                self.wf(),
                i <= self.blocks@.len(),
                total == sum_nat(self.used_per_block().take(i as int)),
                total <= i * VBLOCK_SIZE,
            decreases self.blocks@.len() - i,
        {
            assert(self.used_per_block().take(i + 1).drop_last() =~= self.used_per_block().take(i as int));
            assert(self.blocks@[i as int].wf());
            total = total + self.blocks[i].used_bytes();
            i = i + 1;
        }
        assert(self.used_per_block().take(i as int) =~= self.used_per_block());
        total
    }

    /// Whether the bytes in use reach the file size limit.
    pub fn is_size_limit_exceeded(&self) -> (b: bool)
        requires
            self.wf(),
        ensures
            b == (sum_nat(self.used_per_block()) >= crate::VFILE_SIZE_LIMIT),
    {
        self.total_size() >= crate::VFILE_SIZE_LIMIT
    }

    /// Syncs every block, stopping at the first that fails; the values stay as they are. A
    /// block whose map is a file's writes its bytes to the file.
    pub fn flush(&self) -> (r: Result<()>)
        ensures
            r matches Err(e) ==> e is Io,
            self.block_count() == 0 ==> r is Ok,
    {
        let mut i: usize = 0;
        while i < self.blocks.len()
            decreases self.blocks@.len() - i,
        {
            match self.blocks[i].flush() {
                Ok(()) => {},
                Err(e) => return Err(e),
            }
            i = i + 1;
        }
        Ok(())
    }

    /// The path of the file.
    pub fn file_path(&self) -> (p: &str)
        ensures
            p@ == self.path(),
    {
        self.file_path.as_str()
    }
}

} // verus!

verus! {

/// `n` written with at least four digits, zeros in front, as `{:04}` writes it.
pub open spec fn four_digits(n: nat) -> Seq<char> {
    let pad: Seq<char> = if n < 10 {
        seq!['0', '0', '0']
    } else if n < 100 {
        seq!['0', '0']
    } else if n < 1000 {
        seq!['0']
    } else {
        seq![]
    };
    pad + crate::text::decimal(n)
}

/// The name of data file number `n`: `tsdata_NNNN.dat`.
pub open spec fn data_file_label(n: nat) -> Seq<char> {
    "tsdata_"@ + four_digits(n) + ".dat"@
}

/// The path of data file number `n` under `base`: `base/tsdata_NNNN.dat`.
pub open spec fn data_file_name(base: Seq<char>, n: nat) -> Seq<char> {
    base + "/"@ + data_file_label(n)
}

/// Appends the name of data file number `n` to `p`.
pub fn push_data_file_label(p: &mut String, n: usize)
    ensures
        final(p)@ == old(p)@ + data_file_label(n as nat),
{
    let ghost start = p@;
    p.append("tsdata_");
    if n < 10 {
        p.append("000");
    } else if n < 100 {
        p.append("00");
    } else if n < 1000 {
        p.append("0");
    }
    proof {
        reveal_strlit("000");
        reveal_strlit("00");
        reveal_strlit("0");
    }
    let ghost before = p@;
    crate::text::push_decimal(p, n as u64);
    p.append(".dat");
    proof {
        let pad: Seq<char> = if n < 10 {
            seq!['0', '0', '0']
        } else if n < 100 {
            seq!['0', '0']
        } else if n < 1000 {
            seq!['0']
        } else {
            seq![]
        };
        assert(before =~= start + "tsdata_"@ + pad);
        assert(p@ =~= start + data_file_label(n as nat));
    }
}

/// The path of data file number `n` under `base`.
pub fn data_file_path(base: &str, n: usize) -> (p: String)
    ensures
        p@ == data_file_name(base@, n as nat),
{
    let mut p = String::from_str(base);
    p.append("/");
    push_data_file_label(&mut p, n);
    assert(p@ =~= data_file_name(base@, n as nat));
    p
}

/// Stores values by position in data files of `VALUES_PER_FILE` values each: position `p` is
/// in file `p / VALUES_PER_FILE`, at `p % VALUES_PER_FILE`.
pub struct ValueBlockManager {
    files: Vec<VFile>,
    current_file_index: usize,
    base_path: String,
    file_counter: usize,
}

impl ValueBlockManager {
    /// The invariant: the files, numbered from 1, are named after the base path.
    pub closed spec fn wf(&self) -> bool {
        &&& 1 <= self.files@.len() <= usize::MAX / crate::VALUES_PER_FILE + 1
        &&& self.file_counter == self.files@.len()
        &&& self.current_file_index < self.files@.len()
        &&& forall|k: int| 0 <= k < self.files@.len() ==> (#[trigger] self.files@[k]).wf()
        &&& forall|k: int| 0 <= k < self.files@.len() ==> (#[trigger] self.files@[k]).path() == data_file_name(
            self.base_path@,
            (k + 1) as nat,
        )
    }

    /// The values of each file.
    pub closed spec fn files_view(&self) -> Seq<Seq<Value>> {
        self.files@.map_values(|f: VFile| f@)
    }

    /// The value at position `p`, if a block holds it.
    pub open spec fn value(&self, p: int) -> Option<Value> {
        let fs = self.files_view();
        let fi = p / crate::VALUES_PER_FILE as int;
        let q = p % crate::VALUES_PER_FILE as int;
        if 0 <= p && fi < fs.len() && q < fs[fi].len() {
            Some(fs[fi][q])
        } else {
            None
        }
    }

    /// The value at position `p`, or 0 where no block holds it yet.
    pub open spec fn stored(&self, p: int) -> Value {
        match self.value(p) {
            Some(v) => v,
            None => 0,
        }
    }

    /// Whether `later` holds every value that `self` holds, and zeros where it holds more,
    /// except possibly at position `p`.
    pub open spec fn keeps_except(&self, later: &Self, p: int) -> bool {
        forall|q: int|
            q != p ==> {
                &&& #[trigger] later.stored(q) == self.stored(q)
                &&& self.value(q) is Some ==> later.value(q) == self.value(q)
            }
    }

    /// The bytes of the block that holds region `region`, the values from
    /// `region * VALUES_PER_BLOCK` on, if a block holds it: block `region % BLOCKS_PER_FILE` of
    /// data file `region / BLOCKS_PER_FILE`.
    pub closed spec fn region_data(&self, region: int) -> Option<Seq<u8>> {
        let fi = region / crate::BLOCKS_PER_FILE as int;
        let bi = region % crate::BLOCKS_PER_FILE as int;
        if 0 <= region && fi < self.files@.len() && bi < self.files@[fi].block_count() {
            Some(self.files@[fi].block_bytes(bi))
        } else {
            None
        }
    }

    /// The path of the data file that holds region `region`, if the store has that file: file
    /// `region / BLOCKS_PER_FILE`, counted from 0.
    pub closed spec fn region_file(&self, region: int) -> Option<Seq<char>> {
        let fi = region / crate::BLOCKS_PER_FILE as int;
        if 0 <= region && fi < self.files@.len() {
            Some(self.files@[fi].path())
        } else {
            None
        }
    }

    /// A region held by a block lies in a data file of the store, and the data file that holds
    /// region `region` is `base/tsdata_NNNN.dat`, numbered from 1.
    pub proof fn lemma_region_file(&self, region: int)
        requires
            self.wf(),
        ensures
            self.region_data(region) is Some ==> self.region_file(region) is Some,
            self.region_file(region) is Some ==> self.region_file(region) == Some(
                data_file_name(self.base(), (region / crate::BLOCKS_PER_FILE as int + 1) as nat),
            ),
    {
    }

    /// Position `p` is held exactly when a block holds its region, and then it holds the value
    /// that the block's bytes give.
    pub proof fn lemma_region(&self, p: int)
        requires
            self.wf(),
            p >= 0,
        ensures
            self.value(p) is Some <==> self.region_data(p / VALUES_PER_BLOCK as int) is Some,
            self.region_data(p / VALUES_PER_BLOCK as int) matches Some(b) ==> b.len() == VBLOCK_SIZE
                && self.value(p) == Some(value_at(b, p % VALUES_PER_BLOCK as int)),
    {
        let r = p / VALUES_PER_BLOCK as int;
        let k = p % VALUES_PER_BLOCK as int;
        lemma_position(r, k);
        vstd::arithmetic::div_mod::lemma_fundamental_div_mod(p, VALUES_PER_BLOCK as int);
        let fi = r / crate::BLOCKS_PER_FILE as int;
        let bi = r % crate::BLOCKS_PER_FILE as int;
        if fi < self.files@.len() {
            let f = self.files@[fi];
            assert(f.wf());
            f.lemma_len();
            assert(self.files_view()[fi] == f@);
            if bi < f.block_count() {
                f.lemma_block(bi, k);
            }
        }
    }

    /// The directory that holds the data files.
    pub closed spec fn base(&self) -> Seq<char> {
        self.base_path@
    }

    /// The number of data files.
    pub closed spec fn count(&self) -> nat {
        self.files@.len()
    }

    /// The data file being written.
    pub closed spec fn current(&self) -> nat {
        self.current_file_index as nat
    }

    /// A store of one data file, `base_path/tsdata_0001.dat`, holding one block of zeros.
    /// Creating the directory is the caller's.
    pub fn new(base_path: String) -> (r: Result<Self>)
        ensures
            r matches Ok(m) ==> m.wf() && m.base() == base_path@ && m.count() == 1 && m.current() == 0
                && (forall|p: int| 0 <= p < VALUES_PER_BLOCK ==> #[trigger] m.value(p) == Some(0u64)) && (
                forall|p: int| !(0 <= p < VALUES_PER_BLOCK) ==> #[trigger] m.value(p) is None),
            r matches Err(e) ==> e is Io,
    {
        let first = data_file_path(base_path.as_str(), 1);
        let f = match VFile::new(first) {
            Ok(f) => f,
            Err(e) => return Err(e),
        };
        let mut files: Vec<VFile> = Vec::new();
        files.push(f);
        let m = ValueBlockManager { files, current_file_index: 0, base_path, file_counter: 1 };
        proof {
            f.lemma_len();
            assert(m.files_view() =~= seq![f@]);
        }
        Ok(m)
    }

    /// Adds the next data file, holding one block of zeros, and makes it the current one.
    fn create_new_file(&mut self) -> (r: Result<()>)
        requires
            old(self).wf(),
            old(self).count() <= usize::MAX / crate::VALUES_PER_FILE,
        ensures
            final(self).wf(),
            final(self).base() == old(self).base(),
            r is Ok ==> final(self).files_view() == old(self).files_view().push(zeros(VALUES_PER_BLOCK as nat))
                && final(self).current() == old(self).count() && final(self).count() == old(self).count() + 1,
            r is Err ==> (r matches Err(e) && e is Io) && final(self).files_view() == old(self).files_view()
                && final(self).current() == old(self).current(),
    {
        let path = data_file_path(self.base_path.as_str(), self.file_counter + 1);
        let f = match VFile::new(path) {
            Ok(f) => f,
            Err(e) => return Err(e),
        };
        let ghost fv = f@;
        self.files.push(f);
        self.file_counter = self.file_counter + 1;
        self.current_file_index = self.files.len() - 1;
        assert(self.files_view() =~= old(self).files_view().push(fv));
        Ok(())
    }

    proof fn lemma_keeps_weaken(a: &Self, b: &Self, p: int)
        requires
            a.keeps_except(b, -1),
        ensures
            a.keeps_except(b, p),
            b.stored(p) == a.stored(p),
            a.value(p) is Some ==> b.value(p) == a.value(p),
    {
        assert forall|q: int| true implies {
            &&& #[trigger] b.stored(q) == a.stored(q)
            &&& a.value(q) is Some ==> b.value(q) == a.value(q)
        } by {
            if q == -1 {
                assert(a.value(q) is None);
                assert(b.value(q) is None);
            } else {
                assert(b.stored(q) == a.stored(q));
            }
        }
        assert(b.stored(p) == a.stored(p));
        assert(a.value(p) is Some ==> b.value(p) == a.value(p));
    }

    proof fn lemma_same_values(a: &Self, b: &Self)
        requires
            a.files_view() == b.files_view(),
        ensures
            a.keeps_except(b, -1),
    {
        assert forall|q: int| q != -1 implies {
            &&& #[trigger] b.stored(q) == a.stored(q)
            &&& a.value(q) is Some ==> b.value(q) == a.value(q)
        } by {
            assert(a.value(q) == b.value(q));
        }
    }

    proof fn lemma_keeps_trans(a: &Self, b: &Self, c: &Self, p: int)
        requires
            a.keeps_except(b, -1),
            b.keeps_except(c, p),
        ensures
            a.keeps_except(c, p),
    {
        assert forall|q: int| q != p implies {
            &&& #[trigger] c.stored(q) == a.stored(q)
            &&& a.value(q) is Some ==> c.value(q) == a.value(q)
        } by {
            assert(c.stored(q) == b.stored(q));
            if q != -1 {
                assert(b.stored(q) == a.stored(q));
            }
        }
    }

    /// Puts `block` in place of the block of region `region`, adding data files and zero blocks
    /// up to it first: the region's values become the block's, and every other position stays.
    /// Where a block holds the region already, nothing is mapped and this succeeds; a block
    /// that cannot be mapped is `Io`, with every value kept.
    pub fn place_block(&mut self, region: usize, block: VBlock) -> (r: Result<()>)
        requires
            old(self).wf(),
            block.wf(),
            region < usize::MAX / VBLOCK_SIZE,
        ensures
            final(self).wf(),
            final(self).base() == old(self).base(),
            r is Ok ==> final(self).region_data(region as int) == Some(block.bytes()),
            forall|q: int|
                !(region * VALUES_PER_BLOCK <= q < region * VALUES_PER_BLOCK + VALUES_PER_BLOCK) ==> {
                    &&& #[trigger] final(self).stored(q) == old(self).stored(q)
                    &&& old(self).value(q) is Some ==> final(self).value(q) == old(self).value(q)
                },
            r is Err ==> (r matches Err(e) && e is Io) && old(self).keeps_except(&*final(self), -1),
            old(self).region_data(region as int) is Some ==> r is Ok,
    {
        let p = region * VALUES_PER_BLOCK;
        proof {
            lemma_position(region as int, 0);
            old(self).lemma_region(p as int);
        }
        match self.write_value(p, 0) {
            Ok(()) => {},
            Err(e) => {
                proof {
                    assert forall|q: int|
                        #![trigger self.stored(q)]
                        #![trigger self.value(q)]
                        self.stored(q) == old(self).stored(q) && (old(self).value(q) is Some ==> self.value(q) == old(
                            self).value(q)) by {
                        if q != p {
                            assert(old(self).keeps_except(&*self, p as int));
                            assert(self.stored(q) == old(self).stored(q));
                        }
                    }
                }
                return Err(e);
            },
        }
        let ghost mid = *self;
        let fi = p / crate::VALUES_PER_FILE;
        let bi = (p % crate::VALUES_PER_FILE) / VALUES_PER_BLOCK;
        proof {
            mid.lemma_region(p as int);
            assert(fi == region / crate::BLOCKS_PER_FILE && bi == region % crate::BLOCKS_PER_FILE);
            assert(self.files@[fi as int].wf());
        }
        self.files[fi].set_block(bi, block);
        proof {
            assert(self.files_view() == mid.files_view().update(fi as int, self.files@[fi as int]@));
            assert forall|k: int| 0 <= k < self.files@.len() implies (#[trigger] self.files@[k]).path() == data_file_name(
                self.base_path@, (k + 1) as nat) by {
                if k != fi {
                    assert(self.files@[k] == mid.files@[k]);
                }
            }
            assert forall|k: int| 0 <= k < self.files@.len() implies (#[trigger] self.files@[k]).wf() by {
                if k != fi {
                    assert(self.files@[k] == mid.files@[k]);
                }
            }
            assert forall|q: int|
                !(region * VALUES_PER_BLOCK <= q < region * VALUES_PER_BLOCK + VALUES_PER_BLOCK) implies {
                    &&& #[trigger] self.stored(q) == old(self).stored(q)
                    &&& old(self).value(q) is Some ==> self.value(q) == old(self).value(q)
                } by {
                assert(mid.stored(q) == old(self).stored(q));
                if q >= 0 {
                    let qf = q / crate::VALUES_PER_FILE as int;
                    let qq = q % crate::VALUES_PER_FILE as int;
                    vstd::arithmetic::div_mod::lemma_fundamental_div_mod(q, crate::VALUES_PER_FILE as int);
                    vstd::arithmetic::div_mod::lemma_fundamental_div_mod(qq, VALUES_PER_BLOCK as int);
                    if qf == fi && qq / VALUES_PER_BLOCK as int == bi {
                        assert(false);
                    }
                    if qf == fi {
                        assert(self.value(q) == mid.value(q));
                    }
                }
            }
        }
        Ok(())
    }

    /// Puts `block` in place of the block of region `region` after copying the region's values
    /// into it, adding data files and zero blocks up to it first: every position keeps its
    /// value, and from then on the region's values are in `block`. Where a block holds the
    /// region already, nothing is mapped and this succeeds; a block that cannot be mapped is
    /// `Io`, with every value kept.
    pub fn back_block(&mut self, region: usize, block: VBlock) -> (r: Result<()>)
        requires
            old(self).wf(),
            block.wf(),
            region < usize::MAX / VBLOCK_SIZE,
        ensures
            final(self).wf(),
            final(self).base() == old(self).base(),
            forall|q: int| #[trigger] final(self).stored(q) == old(self).stored(q),
            forall|q: int| old(self).value(q) is Some ==> #[trigger] final(self).value(q) == old(self).value(q),
            r is Ok ==> final(self).region_data(region as int) is Some,
            r is Err ==> (r matches Err(e) && e is Io),
            old(self).region_data(region as int) is Some ==> r is Ok,
    {
        let mut block = block;
        let start = region * VALUES_PER_BLOCK;
        let mut i: usize = 0;
        while i < VALUES_PER_BLOCK
            invariant
                self.wf(),
                *self == *old(self),
                block.wf(),
                start == region * VALUES_PER_BLOCK,
                region < usize::MAX / VBLOCK_SIZE,
                i <= VALUES_PER_BLOCK,
                forall|k: int| 0 <= k < i ==> #[trigger] block@[k] == self.stored(start + k),
            decreases VALUES_PER_BLOCK - i,
        {
            let v = match self.read_value(start + i) {
                Ok(v) => v,
                Err(_) => 0,
            };
            proof {
                block.lemma_len();
            }
            block.write_value(i, v);
            i = i + 1;
        }
        proof {
            block.lemma_len();
        }
        let ghost b = block;
        let r = self.place_block(region, block);
        proof {
            if r is Ok {
                assert forall|q: int|
                    #![trigger self.stored(q)]
                    #![trigger self.value(q)]
                    self.stored(q) == old(self).stored(q) && (old(self).value(q) is Some ==> self.value(q) == old(self).value(q)) by {
                    if start <= q < start + VALUES_PER_BLOCK {
                        lemma_position(region as int, q - start);
                        self.lemma_region(q);
                        b.lemma_bytes();
                        assert(b@[q - start] == old(self).stored(q));
                    }
                }
            } else {
                assert forall|q: int|
                    #![trigger self.stored(q)]
                    #![trigger self.value(q)]
                    self.stored(q) == old(self).stored(q) && (old(self).value(q) is Some ==> self.value(q) == old(self).value(q)) by {
                    assert(self.stored(-1) == old(self).stored(-1));
                    if q != -1 {
                        assert(self.stored(q) == old(self).stored(q));
                    }
                }
            }
        }
        r
    }

    /// Writes `value` at position `seq`, adding data files and zero blocks up to the one that
    /// holds it; a block that cannot be mapped is `Io`, with the files and blocks added so far kept.
    /// Where a block holds the position already, nothing is mapped and the write succeeds.
    pub fn write_value(&mut self, seq: usize, value: Value) -> (r: Result<()>)
        requires
            old(self).wf(),
        ensures
            final(self).wf(),
            final(self).base() == old(self).base(),
            old(self).keeps_except(&*final(self), seq as int),
            r is Ok ==> final(self).value(seq as int) == Some(value),
            old(self).value(seq as int) is Some ==> r is Ok,
            r is Err ==> (r matches Err(e) && e is Io) && final(self).stored(seq as int) == old(self).stored(seq as int)
                && (old(self).value(seq as int) is Some ==> final(self).value(seq as int) == old(self).value(seq as int)),
    {
        let file_index = seq / crate::VALUES_PER_FILE;
        let pos = seq % crate::VALUES_PER_FILE;
        while file_index >= self.files.len()
            invariant
                self.wf(),
                self.base() == old(self).base(),
                file_index == seq / crate::VALUES_PER_FILE,
                old(self).keeps_except(&*self, -1),
            decreases file_index + 1 - self.count(),
        {
            let ghost before = *self;
            match self.create_new_file() {
                Ok(()) => {},
                Err(e) => {
                    proof {
                        Self::lemma_same_values(&before, &*self);
                        Self::lemma_keeps_trans(&old(self), &before, &*self, -1);
                        Self::lemma_keeps_weaken(&old(self), &*self, seq as int);
                    }
                    return Err(e);
                },
            }
            proof {
                assert forall|q: int| q != -1 implies {
                    &&& #[trigger] self.stored(q) == before.stored(q)
                    &&& before.value(q) is Some ==> self.value(q) == before.value(q)
                } by {
                    let fi = q / crate::VALUES_PER_FILE as int;
                    if 0 <= q && fi < before.files_view().len() {
                        assert(self.files_view()[fi] == before.files_view()[fi]);
                    }
                    if 0 <= q && fi == before.files_view().len() {
                        let qq = q % crate::VALUES_PER_FILE as int;
                        if qq < VALUES_PER_BLOCK {
                            assert(self.files_view()[fi][qq] == 0u64);
                        }
                    }
                }
            }
        }
        let ghost before = *self;
        proof {
            self.files@[file_index as int].lemma_len();
        }
        proof {
            if old(self).value(seq as int) is Some {
                assert(before.stored(seq as int) == old(self).stored(seq as int));
                assert(before.value(seq as int) is Some);
            }
        }
        let res = self.files[file_index].write_value(pos, value);
        if res.is_ok() && file_index > self.current_file_index {
            self.current_file_index = file_index;
        }
        proof {
            let fv0 = before.files_view()[file_index as int];
            let fv1 = self.files_view()[file_index as int];
            assert(self.files_view() == before.files_view().update(file_index as int, fv1));
            assert forall|q: int| q != seq implies {
                &&& #[trigger] self.stored(q) == before.stored(q)
                &&& before.value(q) is Some ==> self.value(q) == before.value(q)
            } by {
                let fi = q / crate::VALUES_PER_FILE as int;
                let qq = q % crate::VALUES_PER_FILE as int;
                if 0 <= q && fi == file_index {
                    assert(qq != pos);
                    if qq < fv1.len() && qq >= fv0.len() {
                        assert(fv1[qq] == 0u64);
                    }
                }
            }
        }
        proof {
            Self::lemma_keeps_trans(&old(self), &before, &*self, seq as int);
            Self::lemma_keeps_weaken(&old(self), &before, seq as int);
        }
        match res {
            Ok(()) => Ok(()),
            Err(e) => Err(e),
        }
    }

    /// The value at position `seq`; a position that no block holds is `InvalidSeq`.
    pub fn read_value(&self, seq: usize) -> (r: Result<Value>)
        requires
            self.wf(),
        ensures
            self.value(seq as int) matches Some(v) ==> r == Ok::<Value, TsDbError>(v),
            self.value(seq as int) is None ==> (r matches Err(TsDbError::InvalidSeq(s)) && s == seq),
    {
        let file_index = seq / crate::VALUES_PER_FILE;
        if file_index >= self.files.len() {
            return Err(TsDbError::InvalidSeq(seq as u64));
        }
        match self.files[file_index].read_value(seq % crate::VALUES_PER_FILE) {
            Ok(v) => Ok(v),
            Err(_) => Err(TsDbError::InvalidSeq(seq as u64)),
        }
    }

    /// Syncs every data file, stopping at the first that fails; the values stay as they are.
    pub fn flush(&self) -> (r: Result<()>)
        ensures
            r matches Err(e) ==> e is Io,
            self.count() == 0 ==> r is Ok,
    {
        let mut i: usize = 0;
        while i < self.files.len()
            decreases self.files@.len() - i,
        {
            match self.files[i].flush() {
                Ok(()) => {},
                Err(e) => return Err(e),
            }
            i = i + 1;
        }
        Ok(())
    }

    /// The number of data files.
    pub fn file_count(&self) -> (n: usize)
        ensures
            n == self.count(),
    {
        self.files.len()
    }

    /// The index of the data file being written.
    pub fn current_file_index(&self) -> (n: usize)
        ensures
            n == self.current(),
    {
        self.current_file_index
    }
}

/// Position `k` of region `r` is in data file `r / BLOCKS_PER_FILE`, block `r % BLOCKS_PER_FILE`,
/// at `k` within the block.
pub proof fn lemma_position(r: int, k: int)
    requires
        r >= 0,
        0 <= k < VALUES_PER_BLOCK,
    ensures
        (r * VALUES_PER_BLOCK + k) / VALUES_PER_BLOCK as int == r,
        (r * VALUES_PER_BLOCK + k) % VALUES_PER_BLOCK as int == k,
        (r * VALUES_PER_BLOCK + k) / crate::VALUES_PER_FILE as int == r / crate::BLOCKS_PER_FILE as int,
        ((r * VALUES_PER_BLOCK + k) % crate::VALUES_PER_FILE as int) / VALUES_PER_BLOCK as int == r % crate::BLOCKS_PER_FILE as int,
        ((r * VALUES_PER_BLOCK + k) % crate::VALUES_PER_FILE as int) % VALUES_PER_BLOCK as int == k,
{
    let p = r * VALUES_PER_BLOCK + k;
    let q = r / crate::BLOCKS_PER_FILE as int;
    let m = r % crate::BLOCKS_PER_FILE as int;
    vstd::arithmetic::div_mod::lemma_fundamental_div_mod(r, crate::BLOCKS_PER_FILE as int);
    vstd::arithmetic::div_mod::lemma_fundamental_div_mod_converse(p, VALUES_PER_BLOCK as int, r, k);
    assert(p == q * crate::VALUES_PER_FILE + (m * VALUES_PER_BLOCK + k));
    vstd::arithmetic::div_mod::lemma_fundamental_div_mod_converse(p, crate::VALUES_PER_FILE as int, q, m * VALUES_PER_BLOCK + k);
    vstd::arithmetic::div_mod::lemma_fundamental_div_mod_converse(m * VALUES_PER_BLOCK + k, VALUES_PER_BLOCK as int, m, k);
}

} // verus!
