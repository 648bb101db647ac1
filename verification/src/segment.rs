//! A segment: a key map, an index of bucket times, and the stored values.
use memmap2::MmapMut;
use std::collections::HashMap;
use vstd::prelude::*;

use crate::error::{Result, TsDbError};
use crate::index::{bad_key_message, first_bad_key, saved_map, IndexEntry, IndexManager};
use crate::keymap::{
    apply_entries, bad_line_message, bad_seq_message, keymap_lines_fit, load_keymap_lines, KeyMapLoad,
    KeyMapManager, KeyMapView,
};
use crate::text::{lines, parse_u64};
use crate::mapped::{mapped_bytes, mapped_slice};
use crate::storage::{data_file_label, push_data_file_label, VBlock, ValueBlockManager};
use crate::{spec_bucket_time, timestamp_to_bucket_time, BucketTime, Value, VALUES_PER_BLOCK, VBLOCK_SIZE};

verus! {

broadcast use vstd::std_specs::hash::group_hash_axioms;

/// Whether `e` is the entry that a new bucket gets when it is given region `region` and the
/// segment has `keys` keys: the region's data file, its byte offset in the storage, and the
/// length of one value per key.
pub open spec fn is_region_entry(e: IndexEntry, region: nat, keys: nat) -> bool {
    &&& e.file_path@ == data_file_label(region / crate::BLOCKS_PER_FILE as nat + 1)
    &&& e.offset == region * VBLOCK_SIZE
    &&& e.length == keys * crate::VALUE_BYTES
}

/// A segment: keys, the bucket times written, and for each bucket time a region of
/// `VALUES_PER_BLOCK` values, one per sequence number.
pub struct Segment {
    name: String,
    keymap: KeyMapManager,
    index: IndexManager,
    storage: ValueBlockManager,
    written: HashMap<BucketTime, Vec<bool>>,
    next_region: usize,
    bucket_interval: u64,
}

impl Segment {
    /// The segment's key map.
    pub closed spec fn keys(&self) -> KeyMapView {
        self.keymap@
    }

    /// The segment's bucket times and where their values are stored.
    pub closed spec fn buckets(&self) -> Map<BucketTime, IndexEntry> {
        self.index@
    }

    /// The bucket times of the segment in increasing order.
    pub closed spec fn bucket_times(&self) -> Seq<BucketTime> {
        self.index.times()
    }

    /// The storage position of sequence number `s` of bucket `bt`.
    pub closed spec fn slot(&self, bt: BucketTime, s: int) -> int {
        self.index@[bt].offset / 8 + s
    }

    /// The value of sequence number `s` at bucket `bt`: 0 where nothing was stored.
    pub closed spec fn value_at(&self, bt: BucketTime, s: int) -> Value {
        if self.index@.contains_key(bt) && 0 <= s < VALUES_PER_BLOCK {
            self.storage.stored(self.slot(bt, s))
        } else {
            0
        }
    }

    /// Whether a value was stored for sequence number `s` at bucket `bt`.
    pub closed spec fn present(&self, bt: BucketTime, s: int) -> bool {
        &&& self.written@.contains_key(bt)
        &&& 0 <= s < self.written@[bt]@.len()
        &&& self.written@[bt]@[s]
    }

    /// Whether a block holds the storage position of sequence number `s` at bucket `bt`, or,
    /// for a bucket without region, at the region that the next new bucket gets: writing there
    /// maps nothing.
    pub closed spec fn slot_held(&self, bt: BucketTime, s: int) -> bool {
        let p = if self.index@.contains_key(bt) { self.slot(bt, s) } else { self.next_region * VALUES_PER_BLOCK + s };
        self.storage.value(p) is Some
    }

    /// The bytes of the block that holds region `region`, if one does.
    pub closed spec fn region_data(&self, region: int) -> Option<Seq<u8>> {
        self.storage.region_data(region)
    }

    /// The path of the data file that holds region `region`, if the storage has that file.
    pub closed spec fn region_file(&self, region: int) -> Option<Seq<char>> {
        self.storage.region_file(region)
    }

    /// The directory that holds the segment's data files.
    pub closed spec fn data_dir(&self) -> Seq<char> {
        self.storage.base()
    }

    /// The number of data files of the storage.
    pub closed spec fn file_count(&self) -> nat {
        self.storage.count()
    }

    /// Whether every key's sequence number lies below the next one, and every sequence number
    /// from the next one on reads 0 at every bucket, as in a segment that only this one wrote.
    pub open spec fn fresh_zero(&self) -> bool {
        &&& forall|k: Seq<char>| #[trigger] self.keys().key_to_seq.contains_key(k) ==> self.keys().key_to_seq[k] < self.keys().next_seq
        &&& forall|bt: BucketTime, s: int| self.keys().next_seq <= s ==> #[trigger] self.value_at(bt, s) == 0
    }

    /// The region that the next new bucket gets.
    pub closed spec fn next_region(&self) -> nat {
        self.next_region as nat
    }

    /// Whether there is a region left for a new bucket.
    pub closed spec fn has_room(&self) -> bool {
        self.next_region < usize::MAX / VBLOCK_SIZE
    }

    /// The segment's bucket interval.
    pub closed spec fn interval(&self) -> u64 {
        self.bucket_interval
    }

    /// The segment's name.
    pub closed spec fn name_view(&self) -> Seq<char> {
        self.name@
    }

    /// The invariant.
    pub closed spec fn wf(&self) -> bool {
        &&& self.keymap.wf()
        &&& self.index.wf()
        &&& self.storage.wf()
        &&& forall|bt: BucketTime| #[trigger] self.index@.contains_key(bt)
            ==> self.index@[bt].offset / 8 + VALUES_PER_BLOCK <= self.next_region * VALUES_PER_BLOCK
        &&& forall|p: int| p >= self.next_region * VALUES_PER_BLOCK ==> #[trigger] self.storage.stored(p) == 0
        &&& forall|bt: BucketTime| #[trigger] self.written@.contains_key(bt) ==> self.index@.contains_key(bt)
        &&& forall|bt: BucketTime| #[trigger] self.written@.contains_key(bt) ==> self.written@[bt]@.len()
            <= VALUES_PER_BLOCK
    }

    /// Whether distinct buckets have disjoint regions, as they do when every bucket was added by
    /// this segment.
    pub closed spec fn regions_disjoint(&self) -> bool {
        forall|a: BucketTime, b: BucketTime|
            #![trigger self.index@[a], self.index@[b]]
            self.index@.contains_key(a) && self.index@.contains_key(b) && a != b ==> (self.index@[a].offset / 8
                + VALUES_PER_BLOCK <= self.index@[b].offset / 8 || self.index@[b].offset / 8
                + VALUES_PER_BLOCK <= self.index@[a].offset / 8)
    }
}


impl Segment {
    /// A segment named `name` whose files are under `base_path`, with no key and no bucket.
    /// Creating the directory is the caller's.
    pub fn new(name: String, base_path: String, bucket_interval: u64) -> (r: Result<Self>)
        ensures
            r matches Ok(seg) ==> {
                &&& seg.wf()
                &&& seg.regions_disjoint()
                &&& seg.keys() == KeyMapView::empty()
                &&& seg.buckets() == Map::<BucketTime, IndexEntry>::empty()
                &&& seg.interval() == bucket_interval
                &&& seg.name_view() == name@
                &&& seg.next_region() == 0
                &&& seg.has_room()
                &&& forall|bt: BucketTime, s: int| !(#[trigger] seg.present(bt, s))
                &&& forall|bt: BucketTime, s: int| #[trigger] seg.value_at(bt, s) == 0
                &&& forall|bt: BucketTime, s: int| 0 <= s < VALUES_PER_BLOCK ==> #[trigger] seg.slot_held(bt, s)
                &&& seg.fresh_zero()
            },
            r matches Err(e) ==> e is Io,
    {
        let mut keymap_path = String::from_str(base_path.as_str());
        keymap_path.append("/keymap.txt");
        let mut index_path = String::from_str(base_path.as_str());
        index_path.append("/index.json");
        let keymap = match KeyMapManager::new(keymap_path) {
            Ok(k) => k,
            Err(e) => return Err(e),
        };
        let index = match IndexManager::new(index_path) {
            Ok(i) => i,
            Err(e) => return Err(e),
        };
        let storage = match ValueBlockManager::new(base_path) {
            Ok(s) => s,
            Err(e) => return Err(e),
        };
        let seg = Segment {
            name,
            keymap,
            index,
            storage,
            written: HashMap::new(),
            next_region: 0,
            bucket_interval,
        };
        Ok(seg)
    }

    /// Makes sure that `bucket_time` has a region, giving a new bucket the next one.
    fn ensure_bucket(&mut self, bucket_time: BucketTime) -> (r: Result<()>)
        requires
            old(self).wf(),
            old(self).key_count() <= usize::MAX / 8,
        ensures
            final(self).wf(),
            final(self).keys() == old(self).keys(),
            final(self).interval() == old(self).interval(),
            final(self).name_view() == old(self).name_view(),
            forall|b: BucketTime, s: int| #[trigger] final(self).present(b, s) == old(self).present(b, s),
            r is Ok ==> forall|s: int| #[trigger] final(self).slot_held(bucket_time, s) == old(self).slot_held(bucket_time, s),
            forall|b: BucketTime, t: int| old(self).buckets().contains_key(b) ==> #[trigger] final(self).slot_held(b, t) == old(self).slot_held(b, t),
            old(self).buckets().contains_key(bucket_time) || (r is Ok ==> final(self).buckets()[bucket_time].offset % VBLOCK_SIZE == 0),
            old(self).buckets().contains_key(bucket_time) ==> r is Ok && *final(self) == *old(self),
            !old(self).buckets().contains_key(bucket_time) && old(self).has_room() ==> r is Ok
                && final(self).next_region() == old(self).next_region() + 1
                && final(self).buckets().contains_key(bucket_time)
                && is_region_entry(final(self).buckets()[bucket_time], old(self).next_region(), old(self).key_count())
                && final(self).buckets() == old(self).buckets().insert(bucket_time, final(self).buckets()[bucket_time])
                && (old(self).regions_disjoint() ==> final(self).regions_disjoint())
                && forall|b: BucketTime, s: int| #[trigger] final(self).value_at(b, s) == old(self).value_at(b, s),
            !old(self).buckets().contains_key(bucket_time) && !old(self).has_room() ==> (r matches Err(
                TsDbError::Index(_))) && *final(self) == *old(self),
    {
        if self.index.has_entry(bucket_time) {
            return Ok(());
        }
        if self.next_region >= usize::MAX / VBLOCK_SIZE {
            return Err(TsDbError::Index(String::from_str("no region is left for a new bucket time")));
        }
        let region = self.next_region;
        let mut file_path = String::new();
        push_data_file_label(&mut file_path, region / crate::BLOCKS_PER_FILE + 1);
        let length = self.keymap.len() * crate::VALUE_BYTES;
        let entry = IndexEntry { file_path, offset: region * VBLOCK_SIZE, length };
        let ghost e = entry;
        let ghost before = *self;
        self.index.set_entry(bucket_time, entry);
        self.next_region = region + 1;
        proof {
            assert(self.index@[bucket_time] == e);
            assert forall|bt: BucketTime| #[trigger] self.index@.contains_key(bt) implies self.index@[bt].offset
                / 8 + VALUES_PER_BLOCK <= self.next_region * VALUES_PER_BLOCK by {
                if bt != bucket_time {
                    assert(before.index@.contains_key(bt));
                }
            }
            assert forall|b: BucketTime, s: int| #[trigger] self.value_at(b, s) == before.value_at(b, s) by {
                if b == bucket_time && 0 <= s < VALUES_PER_BLOCK {
                    assert(self.slot(b, s) >= region * VALUES_PER_BLOCK);
                } else if b != bucket_time && self.index@.contains_key(b) {
                    assert(before.index@.contains_key(b));
                }
            }
            if before.regions_disjoint() {
                assert forall|a: BucketTime, b: BucketTime|
                    #![trigger self.index@[a], self.index@[b]]
                    self.index@.contains_key(a) && self.index@.contains_key(b) && a != b implies (self.index@[a].offset / 8
                        + VALUES_PER_BLOCK <= self.index@[b].offset / 8 || self.index@[b].offset / 8
                        + VALUES_PER_BLOCK <= self.index@[a].offset / 8) by {
                    if a == bucket_time {
                        assert(before.index@.contains_key(b));
                    } else if b == bucket_time {
                        assert(before.index@.contains_key(a));
                    } else {
                        assert(before.index@.contains_key(a) && before.index@.contains_key(b));
                        assert(before.index@[a] == self.index@[a] && before.index@[b] == self.index@[b]);
                    }
                }
            }
            assert(self.buckets() =~= before.buckets().insert(bucket_time, self.buckets()[bucket_time]));
        }
        Ok(())
    }
}


impl Segment {
    /// Whether storing at `(bt, s)` leaves `(b, t)` alone: they are different sequence numbers of
    /// a bucket, or different storage positions.
    pub closed spec fn apart(&self, bt: BucketTime, s: int, b: BucketTime, t: int) -> bool {
        !(self.index@.contains_key(b) && 0 <= t < VALUES_PER_BLOCK && self.slot(b, t) == self.slot(bt, s))
    }

    /// When storing at `(bt, s)` leaves `(b, t)` alone: another sequence number of the same
    /// bucket, a bucket without region, or, where regions are disjoint, another bucket.
    pub proof fn lemma_apart(&self, bt: BucketTime, s: int, b: BucketTime, t: int)
        ensures
            b == bt && t != s ==> self.apart(bt, s, b, t),
            !self.buckets().contains_key(b) ==> self.apart(bt, s, b, t),
            self.regions_disjoint() && self.buckets().contains_key(bt) && b != bt && 0 <= s < VALUES_PER_BLOCK
                ==> self.apart(bt, s, b, t),
    {
        if self.regions_disjoint() && self.buckets().contains_key(bt) && self.buckets().contains_key(b) && b != bt {
            assert(self.index@[bt] == self.index@[bt] && self.index@[b] == self.index@[b]);
        }
    }

    /// Stores `value` for sequence number `seq` at bucket `bt`, which has a region.
    fn store_value(&mut self, bt: BucketTime, seq: u64, value: Value) -> (r: Result<()>)
        requires
            old(self).wf(),
            old(self).buckets().contains_key(bt),
        ensures
            final(self).wf(),
            final(self).keys() == old(self).keys(),
            final(self).buckets() == old(self).buckets(),
            final(self).bucket_times() == old(self).bucket_times(),
            final(self).next_region() == old(self).next_region(),
            final(self).interval() == old(self).interval(),
            final(self).name_view() == old(self).name_view(),
            seq >= VALUES_PER_BLOCK ==> (r matches Err(TsDbError::ValueBlockFull)) && *final(self) == *old(self),
            seq < VALUES_PER_BLOCK && r is Ok ==> final(self).value_at(bt, seq as int) == value
                && final(self).present(bt, seq as int),
            seq < VALUES_PER_BLOCK && old(self).slot_held(bt, seq as int) ==> r is Ok,
            r is Ok ==> final(self).slot_held(bt, seq as int),
            r is Ok && old(self).buckets()[bt].offset % VBLOCK_SIZE == 0 ==> forall|t: int|
                0 <= t < VALUES_PER_BLOCK ==> #[trigger] final(self).slot_held(bt, t),
            forall|b: BucketTime, t: int| old(self).buckets().contains_key(b) && old(self).slot_held(b, t) ==> #[trigger] final(self).slot_held(b, t),
            seq < VALUES_PER_BLOCK && r is Err ==> (r matches Err(e) && e is Io)
                && final(self).value_at(bt, seq as int) == old(self).value_at(bt, seq as int)
                && final(self).present(bt, seq as int) == old(self).present(bt, seq as int),
            forall|b: BucketTime, t: int| old(self).apart(bt, seq as int, b, t) ==> #[trigger] final(self).value_at(b, t)
                == old(self).value_at(b, t),
            forall|b: BucketTime, t: int| (b, t) != (bt, seq as int) ==> #[trigger] final(self).present(b, t)
                == old(self).present(b, t),
            r is Err ==> forall|b: BucketTime, t: int| #[trigger] final(self).value_at(b, t) == old(self).value_at(b, t),
    {
        if seq >= VALUES_PER_BLOCK as u64 {
            return Err(TsDbError::ValueBlockFull);
        }
        let s = seq as usize;
        let offset = match self.index.get_entry(bt) {
            Some(e) => e.offset,
            None => {
                return Err(TsDbError::Index(String::new()));
            },
        };
        let pos = offset / 8 + s;
        let ghost before = *self;
        let res = self.storage.write_value(pos, value);
        proof {
            assert forall|p: int| p >= self.next_region * VALUES_PER_BLOCK implies #[trigger] self.storage.stored(p)
                == 0 by {
                if p != pos {
                    assert(before.storage.stored(p) == 0);
                }
            }
            assert forall|b: BucketTime, t: int| before.apart(bt, seq as int, b, t) implies #[trigger] self.value_at(b, t)
                == before.value_at(b, t) by {
                if self.index@.contains_key(b) && 0 <= t < VALUES_PER_BLOCK {
                    assert(self.storage.stored(self.slot(b, t)) == before.storage.stored(before.slot(b, t)));
                }
            }
        }
        match res {
            Ok(()) => {},
            Err(e) => {
                proof {
                    assert forall|b: BucketTime, t: int| #[trigger] self.value_at(b, t) == before.value_at(b, t) by {
                        if self.index@.contains_key(b) && 0 <= t < VALUES_PER_BLOCK {
                            let p = self.slot(b, t);
                            if p != pos {
                                assert(self.storage.stored(p) == before.storage.stored(p));
                            }
                        }
                    }
                    assert forall|b: BucketTime, t: int| before.buckets().contains_key(b) && before.slot_held(b, t)
                        implies #[trigger] self.slot_held(b, t) by {
                        let q = self.slot(b, t);
                        if q != pos {
                            assert(self.storage.stored(q) == before.storage.stored(q));
                        }
                    }
                }
                return Err(e);
            },
        }
        let mut flags = match self.written.remove(&bt) {
            Some(v) => v,
            None => Vec::new(),
        };
        let ghost before_flags = flags@;
        while flags.len() <= s
            invariant
                s < VALUES_PER_BLOCK,
                before_flags.len() <= flags@.len() <= s + 1 || flags@ == before_flags,
                forall|k: int| 0 <= k < before_flags.len() ==> flags@[k] == before_flags[k],
                forall|k: int| before_flags.len() <= k < flags@.len() ==> !flags@[k],
            decreases s + 1 - flags@.len(),
        {
            flags.push(false);
        }
        flags.set(s, true);
        let ghost mid = *self;
        self.written.insert(bt, flags);
        proof {
            assert forall|b: BucketTime, t: int| (b, t) != (bt, seq as int) implies #[trigger] self.present(b, t)
                == before.present(b, t) by {
                if b == bt && before.written@.contains_key(bt) {
                    if 0 <= t < before.written@[bt]@.len() {
                        assert(self.written@[bt]@[t] == before.written@[bt]@[t]);
                    }
                }
            }
        }
        proof {
            assert forall|b: BucketTime, t: int| before.buckets().contains_key(b) && before.slot_held(b, t)
                implies #[trigger] self.slot_held(b, t) by {
                let q = self.slot(b, t);
                if q != pos {
                    assert(self.storage.stored(q) == before.storage.stored(q));
                }
            }
            if before.index@[bt].offset % VBLOCK_SIZE == 0 {
                let region: int = before.index@[bt].offset as int / VBLOCK_SIZE as int;
                vstd::arithmetic::div_mod::lemma_fundamental_div_mod(before.index@[bt].offset as int, VBLOCK_SIZE as int);
                vstd::arithmetic::div_mod::lemma_fundamental_div_mod_converse(
                    before.index@[bt].offset as int, 8, region * VALUES_PER_BLOCK, 0);
                crate::storage::lemma_position(region, s as int);
                self.storage.lemma_region(pos as int);
                assert forall|t: int| 0 <= t < VALUES_PER_BLOCK implies #[trigger] self.slot_held(bt, t) by {
                    crate::storage::lemma_position(region, t);
                    self.storage.lemma_region(self.slot(bt, t));
                }
            }
        }
        Ok(())
    }
}


/// The value `u64::wrapping_add` gives.
pub open spec fn wrapping_sum(a: u64, b: u64) -> u64 {
    vstd::wrapping::u64_specs::wrapping_add(a, b)
}

impl Segment {
    /// The value of sequence number `seq` at bucket `bt`.
    fn read_at(&self, bt: BucketTime, seq: u64) -> (v: Value)
        requires
            self.wf(),
        ensures
            v == self.value_at(bt, seq as int),
    {
        if seq >= VALUES_PER_BLOCK as u64 {
            return 0;
        }
        match self.index.get_entry(bt) {
            Some(e) => match self.storage.read_value(e.offset / 8 + seq as usize) {
                Ok(v) => v,
                Err(_) => 0,
            },
            None => 0,
        }
    }

    /// What storing `v` at the bucket of `timestamp` for `key` does: the key gets a sequence number,
    /// the bucket a region, then the value is stored.
    pub open spec fn stores(&self, later: &Self, timestamp: u64, key: Seq<char>, v: Value, r: Result<()>) -> bool {
        let bt = spec_bucket_time(timestamp, self.interval()) as u64;
        let s = self.keys().seq_for(key);
        let known = self.buckets().contains_key(bt);
        &&& later.wf()
        &&& later.interval() == self.interval()
        &&& later.name_view() == self.name_view()
        &&& later.keys() == self.keys().with_key(key)
        &&& known ==> later.buckets() == self.buckets()
        &&& !known && self.has_room() ==> later.buckets().contains_key(bt) && is_region_entry(later.buckets()[bt], self.next_region(), later.key_count())
            && later.buckets() == self.buckets().insert(bt, later.buckets()[bt])
            && (self.regions_disjoint() ==> later.regions_disjoint())
        &&& !known && !self.has_room() ==> (r matches Err(TsDbError::Index(_))) && later.buckets() == self.buckets()
        &&& (known || self.has_room()) && s >= VALUES_PER_BLOCK ==> (r matches Err(TsDbError::ValueBlockFull))
        &&& (known || self.has_room()) && s < VALUES_PER_BLOCK && r is Ok ==> later.value_at(bt, s as int) == v
            && later.present(bt, s as int)
        &&& (known || self.has_room()) && s < VALUES_PER_BLOCK && r is Err ==> (r matches Err(e) && e is Io)
        &&& (known || self.has_room()) && s < VALUES_PER_BLOCK && self.slot_held(bt, s as int) ==> r is Ok
        &&& r is Ok ==> later.slot_held(bt, s as int)
        &&& r is Ok && later.buckets()[bt].offset % VBLOCK_SIZE == 0 ==> forall|t: int|
            0 <= t < VALUES_PER_BLOCK ==> #[trigger] later.slot_held(bt, t)
        &&& forall|b: BucketTime, t: int| self.buckets().contains_key(b) && self.slot_held(b, t) ==> #[trigger] later.slot_held(b, t)
        &&& forall|b: BucketTime, t: int| (!later.buckets().contains_key(bt) || later.apart(bt, s as int, b, t))
            ==> #[trigger] later.value_at(b, t) == self.value_at(b, t)
        &&& forall|b: BucketTime, t: int| (b, t) != (bt, s as int) ==> #[trigger] later.present(b, t) == self.present(b, t)
        &&& r is Err ==> later.present(bt, s as int) == self.present(bt, s as int)
        &&& r is Err ==> forall|b: BucketTime, t: int| #[trigger] later.value_at(b, t) == self.value_at(b, t)
    }

    fn put(&mut self, timestamp: u64, key: &str, accumulate: bool, value: Value) -> (r: Result<()>)
        requires
            old(self).wf(),
            old(self).interval() > 0,
            old(self).can_store(key@),
        ensures
            old(self).stores(&*final(self), timestamp, key@, if accumulate {
                wrapping_sum(old(self).value_at(spec_bucket_time(timestamp, old(self).interval()) as u64,
                    old(self).keys().seq_for(key@) as int), value)
            } else {
                value
            }, r),
    {
        let bt = timestamp_to_bucket_time(timestamp, self.bucket_interval);
        let ghost s0 = *self;
        proof {
            self.keymap.lemma_finite();
        }
        let seq = match self.keymap.get_or_create_seq(key) {
            Ok(seq) => seq,
            Err(e) => return Err(e),
        };
        assert(self.key_count() <= s0.key_count() + 1);
        let new_value = if accumulate {
            self.read_at(bt, seq).wrapping_add(value)
        } else {
            value
        };
        let ghost s1 = *self;
        assert(forall|b: BucketTime, t: int| #[trigger] s1.value_at(b, t) == s0.value_at(b, t));
        match self.ensure_bucket(bt) {
            Ok(()) => {},
            Err(e) => {
                return Err(e);
            },
        }
        let ghost s2 = *self;
        let res = self.store_value(bt, seq, new_value);
        proof {
            assert forall|b: BucketTime, t: int| (!self.buckets().contains_key(bt) || self.apart(bt, seq as int, b, t))
                implies #[trigger] self.value_at(b, t) == s0.value_at(b, t) by {
                assert(s2.value_at(b, t) == s1.value_at(b, t));
                assert(s2.apart(bt, seq as int, b, t) == self.apart(bt, seq as int, b, t));
            }
            assert forall|b: BucketTime, t: int| (b, t) != (bt, seq as int) implies #[trigger] self.present(b, t)
                == s0.present(b, t) by {
                assert(s2.present(b, t) == s1.present(b, t));
            }
            if res is Err {
                assert(s2.present(bt, seq as int) == s1.present(bt, seq as int));
                assert forall|b: BucketTime, t: int| #[trigger] self.value_at(b, t) == s0.value_at(b, t) by {
                    assert(s2.value_at(b, t) == s1.value_at(b, t));
                }
            }
        }
        res
    }

    /// Stores `value` for `key` at the bucket of `timestamp`, replacing what was there.
    pub fn insert(&mut self, timestamp: u64, key: &str, value: Value) -> (r: Result<()>)
        requires
            old(self).wf(),
            old(self).interval() > 0,
            old(self).can_store(key@),
        ensures
            old(self).stores(&*final(self), timestamp, key@, value, r),
            old(self).regions_disjoint() && old(self).fresh_zero() ==> final(self).fresh_zero(),
    {
        let r = self.put(timestamp, key, false, value);
        proof {
            if old(self).regions_disjoint() && old(self).fresh_zero() {
                old(self).lemma_store_keeps_fresh(&*self, timestamp, key@, value, r);
            }
        }
        r
    }

    /// Adds `value` to what `key` holds at the bucket of `timestamp` (0 when it holds nothing),
    /// wrapping around at `u64::MAX`.
    pub fn accumulate(&mut self, timestamp: u64, key: &str, value: Value) -> (r: Result<()>)
        requires
            old(self).wf(),
            old(self).interval() > 0,
            old(self).can_store(key@),
        ensures
            old(self).stores(&*final(self), timestamp, key@, wrapping_sum(old(self).value_at(
                spec_bucket_time(timestamp, old(self).interval()) as u64, old(self).keys().seq_for(key@) as int),
                value), r),
            old(self).regions_disjoint() && old(self).fresh_zero() ==> final(self).fresh_zero(),
    {
        let ghost v = wrapping_sum(old(self).value_at(spec_bucket_time(timestamp, old(self).interval()) as u64,
            old(self).keys().seq_for(key@) as int), value);
        let r = self.put(timestamp, key, true, value);
        proof {
            if old(self).regions_disjoint() && old(self).fresh_zero() {
                old(self).lemma_store_keeps_fresh(&*self, timestamp, key@, v, r);
            }
        }
        r
    }
}


/// The sum of `f` over `ts`.
pub open spec fn sum_over(ts: Seq<BucketTime>, f: spec_fn(BucketTime) -> Value) -> int
    decreases ts.len(),
{
    if ts.len() == 0 {
        0
    } else {
        sum_over(ts.drop_last(), f) + f(ts.last())
    }
}

/// `x` reduced modulo 2^64, as sums that wrap around give it.
pub open spec fn wrap(x: int) -> Value {
    (x % 0x1_0000_0000_0000_0000) as Value
}

/// Adding a value to a wrapped sum wraps the sum with the value added.
pub proof fn lemma_wrap_step(a: int, x: Value)
    requires
        a >= 0,
    ensures
        wrapping_sum(wrap(a), x) == wrap(a + x),
{
    vstd::arithmetic::div_mod::lemma_add_mod_noop(a, x as int, 0x1_0000_0000_0000_0000);
    vstd::arithmetic::div_mod::lemma_mod_bound(a, 0x1_0000_0000_0000_0000);
    vstd::arithmetic::div_mod::lemma_small_mod(x as nat, 0x1_0000_0000_0000_0000);
    let w = wrap(a) as int + x;
    if w >= 0x1_0000_0000_0000_0000 {
        vstd::arithmetic::div_mod::lemma_fundamental_div_mod(w, 0x1_0000_0000_0000_0000);
        vstd::arithmetic::div_mod::lemma_mod_bound(w, 0x1_0000_0000_0000_0000);
    } else {
        vstd::arithmetic::div_mod::lemma_small_mod(w as nat, 0x1_0000_0000_0000_0000);
    }
}

impl Segment {
    /// The bucket times of the segment from `from` to `to`, both included, in increasing order.
    pub closed spec fn times_in_range(&self, from: BucketTime, to: BucketTime) -> Seq<BucketTime> {
        self.index.times_in_range(from, to)
    }

    /// 1 when a value was stored for sequence number `s` at some bucket from `from` to `to`, else 0.
    pub open spec fn unique_value(&self, from: BucketTime, to: BucketTime, s: int) -> Value {
        let ts = self.times_in_range(from, to);
        if exists|k: int| 0 <= k < ts.len() && #[trigger] self.present(ts[k], s) {
            1
        } else {
            0
        }
    }

    /// The sum of the values of sequence number `s` over the buckets from `from` to `to`, wrapped.
    pub open spec fn sum_value(&self, from: BucketTime, to: BucketTime, s: int) -> Value {
        wrap(sum_over(self.times_in_range(from, to), |b: BucketTime| self.value_at(b, s)))
    }

    /// The number of keys.
    pub open spec fn key_count(&self) -> nat {
        self.keys().key_to_seq.len()
    }

    /// Whether `key` can be stored: it has a sequence number or a new one can be given, and the
    /// length of a new bucket's values, eight bytes per key, fits in a `usize`.
    pub open spec fn can_store(&self, key: Seq<char>) -> bool {
        self.keys().can_take(key) && self.key_count() < usize::MAX / 8
    }

    /// The values at bucket `bt`, by sequence number, for each sequence number below the number of keys.
    pub fn get_all_at(&self, bucket_time: BucketTime) -> (r: Result<Vec<Value>>)
        requires
            self.wf(),
        ensures
            r matches Ok(v) && v@.len() == self.key_count() && forall|s: int| 0 <= s < v@.len() ==> #[trigger] v@[s]
                == self.value_at(bucket_time, s),
    {
        let n = self.keymap.len();
        let mut values: Vec<Value> = Vec::new();
        let mut s: usize = 0;
        while s < n
            invariant
                self.wf(),
                n == self.key_count(),
                s <= n,
                values@.len() == s,
                forall|k: int| 0 <= k < s ==> #[trigger] values@[k] == self.value_at(bucket_time, k),
            decreases n - s,
        {
            values.push(self.read_at(bucket_time, s as u64));
            s = s + 1;
        }
        Ok(values)
    }

    /// The value of `key` at bucket `bt`; 0 where nothing was stored.
    pub fn get_key_at(&self, bucket_time: BucketTime, key: &str) -> (r: Result<Value>)
        requires
            self.wf(),
        ensures
            !self.keys().key_to_seq.contains_key(key@) ==> (r matches Err(TsDbError::KeyNotFound(k)) && k@ == key@),
            self.keys().key_to_seq.contains_key(key@) && self.keys().key_to_seq[key@] >= VALUES_PER_BLOCK ==> (r matches Err(
                TsDbError::InvalidSeq(s)) && s == self.keys().key_to_seq[key@]),
            self.keys().key_to_seq.contains_key(key@) && self.keys().key_to_seq[key@] < VALUES_PER_BLOCK ==> r == Ok::<
                Value,
                TsDbError,
            >(self.value_at(bucket_time, self.keys().key_to_seq[key@] as int)),
    {
        let seq = match self.keymap.get_seq(key) {
            Ok(seq) => seq,
            Err(e) => return Err(e),
        };
        if seq >= VALUES_PER_BLOCK as u64 {
            return Err(TsDbError::InvalidSeq(seq));
        }
        Ok(self.read_at(bucket_time, seq))
    }

    /// Whether a value was stored for sequence number `seq` at bucket `bt`.
    fn is_present(&self, bt: BucketTime, seq: usize) -> (b: bool)
        requires
            self.wf(),
        ensures
            b == self.present(bt, seq as int),
    {
        match self.written.get(&bt) {
            Some(flags) => seq < flags.len() && flags[seq],
            None => false,
        }
    }

    /// For each sequence number below the number of keys: with `sum`, its summed values over the
    /// buckets from `from` to `to`; else 1 when it has a value stored at one of them, 0 when not.
    pub fn aggregate(&self, from: BucketTime, to: BucketTime, sum: bool) -> (v: Vec<Value>)
        requires
            self.wf(),
        ensures
            v@.len() == self.key_count(),
            forall|s: int| 0 <= s < v@.len() ==> #[trigger] v@[s] == if sum {
                self.sum_value(from, to, s)
            } else {
                self.unique_value(from, to, s)
            },
    {
        let n = self.keymap.len();
        let mut result: Vec<Value> = Vec::new();
        let mut s: usize = 0;
        while s < n
            invariant
                s <= n,
                result@.len() == s,
                forall|k: int| 0 <= k < s ==> #[trigger] result@[k] == 0,
            decreases n - s,
        {
            result.push(0);
            s = s + 1;
        }
        let entries = self.index.get_entries_in_range(from, to);
        let ghost ts = self.times_in_range(from, to);
        let mut i: usize = 0;
        while i < entries.len()
            invariant
                self.wf(),
                n == self.key_count(),
                result@.len() == n,
                i <= entries@.len() == ts.len(),
                ts == self.times_in_range(from, to),
                forall|k: int|
                    0 <= k < entries@.len() ==> (#[trigger] entries@[k]).0 == ts[k] && *entries@[k].1 == self.index@[
                        entries@[k].0],
                forall|t: BucketTime| #[trigger] ts.contains(t) ==> self.index@.contains_key(t),
                forall|k: int|
                    0 <= k < n ==> #[trigger] result@[k] == if sum {
                        wrap(sum_over(ts.take(i as int), |b: BucketTime| self.value_at(b, k)))
                    } else {
                        if exists|j: int| 0 <= j < i && #[trigger] self.present(ts[j], k) {
                            1u64
                        } else {
                            0u64
                        }
                    },
            decreases entries@.len() - i,
        {
            let bt = entries[i].0;
            let offset = entries[i].1.offset;
            assert(ts.contains(ts[i as int]));
            let mut s: usize = 0;
            while s < n
                invariant
                    self.wf(),
                    n == self.key_count(),
                    result@.len() == n,
                    i < entries@.len() == ts.len(),
                    bt == ts[i as int],
                    self.index@.contains_key(bt),
                    offset == self.index@[bt].offset,
                    s <= n,
                    forall|k: int|
                        0 <= k < n ==> #[trigger] result@[k] == if sum {
                            wrap(sum_over(ts.take(if k < s { i + 1 } else { i as int }), |b: BucketTime| self.value_at(b, k)))
                        } else {
                            if exists|j: int| 0 <= j < (if k < s { i + 1 } else { i as int }) && #[trigger] self.present(ts[j], k) {
                                1u64
                            } else {
                                0u64
                            }
                        },
                decreases n - s,
            {
                let ghost f = |b: BucketTime| self.value_at(b, s as int);
                let ghost before = result@[s as int];
                if sum {
                    let v = if s < VALUES_PER_BLOCK {
                        match self.storage.read_value(offset / 8 + s) {
                            Ok(v) => v,
                            Err(_) => 0,
                        }
                    } else {
                        0
                    };
                    assert(v == self.value_at(bt, s as int));
                    let acc = result[s];
                    result.set(s, acc.wrapping_add(v));
                    proof {
                        assert(ts.take(i + 1).drop_last() =~= ts.take(i as int));
                        assert(ts.take(i + 1).last() == bt);
                        lemma_sum_over_nonneg(ts.take(i as int), f);
                        lemma_wrap_step(sum_over(ts.take(i as int), f), v);
                    }
                } else {
                    if self.is_present(bt, s) {
                        result.set(s, 1);
                        assert(self.present(ts[i as int], s as int));
                    } else {
                        proof {
                            assert forall|j: int| 0 <= j < i + 1 && #[trigger] self.present(ts[j], s as int) implies 0 <= j < i by {}
                        }
                    }
                }
                s = s + 1;
            }
            i = i + 1;
        }
        proof {
            assert(ts.take(i as int) =~= ts);
        }
        result
    }

    /// For each sequence number below the number of keys, 1 when it has a value stored at one of
    /// the buckets from `from` to `to`, else 0.
    pub fn aggr_unique(&self, from: BucketTime, to: BucketTime) -> (r: Result<Vec<Value>>)
        requires
            self.wf(),
        ensures
            r matches Ok(v) && v@.len() == self.key_count() && forall|s: int| 0 <= s < v@.len() ==> #[trigger] v@[s]
                == self.unique_value(from, to, s),
    {
        Ok(self.aggregate(from, to, false))
    }

    /// For each sequence number below the number of keys, the sum of its values over the buckets
    /// from `from` to `to`, wrapping around at `u64::MAX`.
    pub fn aggr_sum(&self, from: BucketTime, to: BucketTime) -> (r: Result<Vec<Value>>)
        requires
            self.wf(),
        ensures
            r matches Ok(v) && v@.len() == self.key_count() && forall|s: int| 0 <= s < v@.len() ==> #[trigger] v@[s]
                == self.sum_value(from, to, s),
    {
        Ok(self.aggregate(from, to, true))
    }
}

proof fn lemma_sum_over_nonneg(ts: Seq<BucketTime>, f: spec_fn(BucketTime) -> Value)
    ensures
        sum_over(ts, f) >= 0,
    decreases ts.len(),
{
    if ts.len() > 0 {
        lemma_sum_over_nonneg(ts.drop_last(), f);
    }
}


/// The regions of the maps given, each with the bytes its map holds.
pub open spec fn region_bytes(regions: Seq<(usize, MmapMut)>) -> Seq<(usize, Seq<u8>)> {
    regions.map_values(|e: (usize, MmapMut)| (e.0, mapped_bytes(e.1)))
}

/// Whether a region's bytes fill a block and the region lies within the storage's positions.
pub open spec fn region_fits(e: (usize, Seq<u8>)) -> bool {
    e.0 < usize::MAX / VBLOCK_SIZE && e.1.len() == VBLOCK_SIZE
}

/// Whether every region given fits.
pub open spec fn regions_fit(rv: Seq<(usize, Seq<u8>)>) -> bool {
    forall|k: int| 0 <= k < rv.len() ==> #[trigger] region_fits(rv[k])
}

/// The bytes last given for region `region`, if any.
pub open spec fn saved_bytes(rv: Seq<(usize, Seq<u8>)>, region: int) -> Option<Seq<u8>>
    decreases rv.len(),
{
    if rv.len() == 0 {
        None
    } else if rv.last().0 == region {
        Some(rv.last().1)
    } else {
        saved_bytes(rv.drop_last(), region)
    }
}

/// The value at storage position `p` that the regions given hold: read from the bytes last given
/// for its region, 0 where none were given.
pub open spec fn saved_region_value(rv: Seq<(usize, Seq<u8>)>, p: int) -> Value {
    if p < 0 {
        0
    } else {
        match saved_bytes(rv, p / VALUES_PER_BLOCK as int) {
            Some(b) => crate::storage::value_at(b, p % VALUES_PER_BLOCK as int),
            None => 0,
        }
    }
}

proof fn lemma_saved_none(rv: Seq<(usize, Seq<u8>)>, region: int)
    requires
        forall|k: int| 0 <= k < rv.len() ==> rv[k].0 < region,
    ensures
        saved_bytes(rv, region) is None,
    decreases rv.len(),
{
    if rv.len() > 0 {
        lemma_saved_none(rv.drop_last(), region);
    }
}

proof fn lemma_saved_beyond(rv: Seq<(usize, Seq<u8>)>, p: int, n: int)
    requires
        forall|k: int| 0 <= k < rv.len() ==> #[trigger] region_fits(rv[k]) && rv[k].0 < n,
        p >= n * VALUES_PER_BLOCK,
    ensures
        saved_region_value(rv, p) == 0,
{
    if p >= 0 {
        vstd::arithmetic::div_mod::lemma_fundamental_div_mod(p, VALUES_PER_BLOCK as int);
        let r = p / VALUES_PER_BLOCK as int;
        assert(r >= n);
        assert forall|k: int| 0 <= k < rv.len() implies rv[k].0 < r by {
            assert(region_fits(rv[k]));
        }
        lemma_saved_none(rv, r);
    }
}

/// The region past every region given, when each fits; `None` when one does not.
fn regions_past(regions: &Vec<(usize, MmapMut)>) -> (r: Option<usize>)
    ensures
        regions_fit(region_bytes(regions@)) <==> r is Some,
        r matches Some(past) ==> past <= usize::MAX / VBLOCK_SIZE && forall|k: int|
            0 <= k < regions@.len() ==> #[trigger] region_bytes(regions@)[k].0 < past,
{
    let ghost rv = region_bytes(regions@);
    let mut past: usize = 0;
    let mut j: usize = 0;
    while j < regions.len()
        invariant
            j <= regions@.len(),
            rv == region_bytes(regions@),
            past <= usize::MAX / VBLOCK_SIZE,
            forall|k: int| 0 <= k < j ==> #[trigger] region_fits(rv[k]),
            forall|k: int| 0 <= k < j ==> #[trigger] rv[k].0 < past,
        decreases regions@.len() - j,
    {
        let region = regions[j].0;
        let n = mapped_slice(&regions[j].1).len();
        assert(rv[j as int] == (region, mapped_bytes(regions@[j as int].1)));
        if region >= usize::MAX / VBLOCK_SIZE || n != VBLOCK_SIZE {
            assert(!region_fits(rv[j as int]));
            return None;
        }
        assert(region_fits(rv[j as int]));
        if region + 1 > past {
            past = region + 1;
        }
        j = j + 1;
    }
    assert forall|k: int| 0 <= k < regions@.len() implies #[trigger] region_bytes(regions@)[k].0 < past by {
        assert(region_fits(rv[k]));
    }
    Some(past)
}

/// A store under `base_path` whose regions hold what `regions` give, the last map given for a
/// region winning; every other position reads 0.
fn load_regions(base_path: String, regions: Vec<(usize, MmapMut)>) -> (r: Result<ValueBlockManager>)
    requires
        regions_fit(region_bytes(regions@)),
    ensures
        r matches Ok(m) ==> m.wf() && forall|p: int| #[trigger] m.stored(p) == saved_region_value(region_bytes(regions@), p),
        r matches Err(e) ==> e is Io,
{
    let ghost rv = region_bytes(regions@);
    let mut storage = match ValueBlockManager::new(base_path) {
        Ok(s) => s,
        Err(e) => return Err(e),
    };
    proof {
        assert forall|p: int| #[trigger] storage.stored(p) == saved_region_value(rv.take(0), p) by {
            assert(rv.take(0).len() == 0);
            if p >= VALUES_PER_BLOCK {
                assert(storage.value(p) is None);
            }
        }
    }
    for item in it: regions
        invariant
            it.seq() == regions@,
            rv == region_bytes(regions@),
            regions_fit(rv),
            storage.wf(),
            forall|p: int| #[trigger] storage.stored(p) == saved_region_value(rv.take(it.index() as int), p),
    {
        let ghost i = it.index();
        let (region, data) = item;
        assert(rv[i as int] == (region, mapped_bytes(data)));
        assert(region_fits(rv[i as int]));
        let block = match VBlock::from_mapping(data) {
            Ok(b) => b,
            Err(e) => return Err(e),
        };
        let ghost before = storage;
        match storage.place_block(region, block) {
            Ok(()) => {},
            Err(e) => return Err(e),
        }
        proof {
            assert(rv.take(i + 1).drop_last() =~= rv.take(i as int));
            assert(rv.take(i + 1).last() == rv[i as int]);
            assert forall|p: int| #[trigger] storage.stored(p) == saved_region_value(rv.take(i + 1), p) by {
                if region * VALUES_PER_BLOCK <= p < region * VALUES_PER_BLOCK + VALUES_PER_BLOCK {
                    crate::storage::lemma_position(region as int, p - region * VALUES_PER_BLOCK);
                    storage.lemma_region(p);
                } else {
                    assert(storage.stored(p) == before.stored(p));
                    if p >= 0 {
                        vstd::arithmetic::div_mod::lemma_fundamental_div_mod(p, VALUES_PER_BLOCK as int);
                        assert(p / VALUES_PER_BLOCK as int != region);
                    }
                }
            }
        }
    }
    assert(rv.take(rv.len() as int) =~= rv);
    Ok(storage)
}

impl Segment {
    /// The segment that saved files describe: `keymap_text` is the text of its key map file,
    /// `saved_index` the entries of its index file, and `regions` the maps of the blocks of its
    /// data files, each with its region. A region's values are read from the last map given for
    /// it; a region with no map reads 0. A map of another size than `VBLOCK_SIZE`, or a region
    /// past the storage's positions, is `Storage`.
    pub fn from_saved(
        name: String,
        base_path: String,
        bucket_interval: u64,
        keymap_text: &str,
        saved_index: Vec<(String, IndexEntry)>,
        regions: Vec<(usize, MmapMut)>,
    ) -> (r: Result<Self>)
        requires
            keymap_lines_fit(lines(keymap_text@)),
        ensures
            match load_keymap_lines(lines(keymap_text@)) {
                KeyMapLoad::BadLine(l) => r matches Err(TsDbError::InvalidDataFormat(msg)) && msg@ == bad_line_message(l),
                KeyMapLoad::BadSeq(f) => r matches Err(TsDbError::InvalidDataFormat(msg)) && msg@ == bad_seq_message(f),
                KeyMapLoad::Loaded(es) => {
                    &&& (exists|k: int| 0 <= k < saved_index@.len() && (#[trigger] parse_u64(saved_index@[k].0@)) is None)
                        ==> (r matches Err(TsDbError::InvalidDataFormat(msg)) && msg@ == bad_key_message(
                        saved_index@[first_bad_key(saved_index@)].0@))
                    &&& (forall|k: int| 0 <= k < saved_index@.len() ==> (#[trigger] parse_u64(saved_index@[k].0@)) is Some)
                        && !regions_fit(region_bytes(regions@)) ==> (r matches Err(TsDbError::Storage(_)))
                    &&& (forall|k: int| 0 <= k < saved_index@.len() ==> (#[trigger] parse_u64(saved_index@[k].0@)) is Some)
                        && regions_fit(region_bytes(regions@)) ==> (r matches Err(e) ==> e is Io) && (r matches Ok(seg) ==> {
                        &&& seg.wf()
                        &&& seg.keys() == apply_entries(KeyMapView::empty(), es)
                        &&& seg.buckets() == saved_map(saved_index@)
                        &&& seg.interval() == bucket_interval
                        &&& seg.name_view() == name@
                        &&& forall|bt: BucketTime, s: int| !(#[trigger] seg.present(bt, s))
                        &&& forall|bt: BucketTime, s: int| seg.buckets().contains_key(bt) && 0 <= s < VALUES_PER_BLOCK
                            ==> #[trigger] seg.value_at(bt, s) == saved_region_value(region_bytes(regions@),
                            seg.buckets()[bt].offset / 8 + s)
                    })
                },
            },
    {
        let mut keymap_path = String::from_str(base_path.as_str());
        keymap_path.append("/keymap.txt");
        let mut index_path = String::from_str(base_path.as_str());
        index_path.append("/index.json");
        let keymap = match KeyMapManager::from_contents(keymap_path, keymap_text) {
            Ok(k) => k,
            Err(e) => return Err(e),
        };
        let index = match IndexManager::from_entries(index_path, saved_index) {
            Ok(i) => i,
            Err(e) => return Err(e),
        };
        let entries = index.get_entries_in_range(0, u64::MAX);
        let mut next_region: usize = 0;
        let mut i: usize = 0;
        while i < entries.len()
            invariant
                i <= entries@.len(),
                forall|k: int| 0 <= k < i ==> (#[trigger] entries@[k]).1.offset / 8 + VALUES_PER_BLOCK <= next_region * VALUES_PER_BLOCK,
            decreases entries@.len() - i,
        {
            let end = entries[i].1.offset / 8 / VALUES_PER_BLOCK + 2;
            if end > next_region {
                next_region = end;
            }
            i = i + 1;
        }
        let ghost rv = region_bytes(regions@);
        let past = match regions_past(&regions) {
            Some(p) => p,
            None => return Err(TsDbError::Storage(String::from_str("a data file block does not fit the storage"))),
        };
        if past > next_region {
            next_region = past;
        }
        let storage = match load_regions(base_path, regions) {
            Ok(s) => s,
            Err(e) => return Err(e),
        };
        proof {
            assert forall|p: int| p >= next_region * VALUES_PER_BLOCK implies #[trigger] storage.stored(p) == 0 by {
                assert forall|k: int| 0 <= k < rv.len() implies #[trigger] region_fits(rv[k]) && rv[k].0 < next_region by {
                    assert(rv[k].0 < past);
                }
                lemma_saved_beyond(rv, p, next_region as int);
            }
        }
        let seg = Segment {
            name,
            keymap,
            index,
            storage,
            written: HashMap::new(),
            next_region,
            bucket_interval,
        };
        proof {
            assert forall|bt: BucketTime| #[trigger] seg.index@.contains_key(bt) implies seg.index@[bt].offset
                / 8 + VALUES_PER_BLOCK <= seg.next_region * VALUES_PER_BLOCK by {
                assert(seg.index.times_in_range(0, u64::MAX).contains(bt));
                let k = choose|k: int| 0 <= k < seg.index.times_in_range(0, u64::MAX).len() && seg.index.times_in_range(0, u64::MAX)[k] == bt;
                assert(entries@[k].0 == bt);
            }
        }
        Ok(seg)
    }

    /// Syncs the stored values: every block is synced, so a region backed by a data file
    /// (`back_region`, `from_saved`) has its bytes written to the file, and those bytes hold the
    /// region's values. The key map has nothing left to write. With no data file there is
    /// nothing to sync.
    pub fn flush(&self) -> (r: Result<()>)
        ensures
            r matches Err(e) ==> e is Io,
            self.file_count() == 0 ==> r is Ok,
            self.wf() && r is Ok ==> forall|bt: BucketTime, s: int|
                self.buckets().contains_key(bt) && 0 <= s < VALUES_PER_BLOCK && self.region_data(self.slot(bt, s) / VALUES_PER_BLOCK as int) is Some
                    ==> #[trigger] self.value_at(bt, s) == crate::storage::value_at(
                    self.region_data(self.slot(bt, s) / VALUES_PER_BLOCK as int)->0,
                    self.slot(bt, s) % VALUES_PER_BLOCK as int,
                ),
    {
        match self.keymap.flush() {
            Ok(()) => {},
            Err(e) => return Err(e),
        }
        let r = self.storage.flush();
        proof {
            if self.wf() {
                assert forall|bt: BucketTime, s: int|
                    self.buckets().contains_key(bt) && 0 <= s < VALUES_PER_BLOCK && self.region_data(self.slot(bt, s) / VALUES_PER_BLOCK as int) is Some
                        implies #[trigger] self.value_at(bt, s) == crate::storage::value_at(
                        self.region_data(self.slot(bt, s) / VALUES_PER_BLOCK as int)->0,
                        self.slot(bt, s) % VALUES_PER_BLOCK as int,
                    ) by {
                    self.lemma_value_from_region(bt, s);
                }
            }
        }
        r
    }

    /// Moves the values of region `region` into `data`, the map of that region's block of a
    /// data file, where they stay from then on: every value stays as it was. A map of another
    /// size than `VBLOCK_SIZE` is `Storage`; adding the zero blocks before the region can fail
    /// with `Io`, and where a block holds the region already nothing is mapped and this succeeds.
    pub fn back_region(&mut self, region: usize, data: MmapMut) -> (r: Result<()>)
        requires
            old(self).wf(),
            region < usize::MAX / VBLOCK_SIZE,
        ensures
            final(self).wf(),
            final(self).keys() == old(self).keys(),
            final(self).buckets() == old(self).buckets(),
            final(self).bucket_times() == old(self).bucket_times(),
            final(self).next_region() == old(self).next_region(),
            final(self).interval() == old(self).interval(),
            final(self).name_view() == old(self).name_view(),
            final(self).regions_disjoint() == old(self).regions_disjoint(),
            forall|bt: BucketTime, s: int| #[trigger] final(self).value_at(bt, s) == old(self).value_at(bt, s),
            forall|bt: BucketTime, s: int| #[trigger] final(self).present(bt, s) == old(self).present(bt, s),
            forall|bt: BucketTime, s: int| old(self).slot_held(bt, s) ==> #[trigger] final(self).slot_held(bt, s),
            r is Ok ==> final(self).region_data(region as int) is Some,
            mapped_bytes(data).len() != VBLOCK_SIZE ==> (r matches Err(TsDbError::Storage(_))),
            mapped_bytes(data).len() == VBLOCK_SIZE ==> (r matches Err(e) ==> e is Io),
            mapped_bytes(data).len() == VBLOCK_SIZE && old(self).region_data(region as int) is Some ==> r is Ok,
    {
        let block = match VBlock::from_mapping(data) {
            Ok(b) => b,
            Err(e) => return Err(e),
        };
        let r = self.storage.back_block(region, block);
        proof {
            assert forall|bt: BucketTime, s: int| #[trigger] self.value_at(bt, s) == old(self).value_at(bt, s) by {
                if self.index@.contains_key(bt) && 0 <= s < VALUES_PER_BLOCK {
                    assert(self.storage.stored(self.slot(bt, s)) == old(self).storage.stored(self.slot(bt, s)));
                }
            }
            assert forall|p: int| p >= self.next_region * VALUES_PER_BLOCK implies #[trigger] self.storage.stored(p) == 0 by {
                assert(self.storage.stored(p) == old(self).storage.stored(p));
            }
            assert forall|bt: BucketTime, s: int| old(self).slot_held(bt, s) implies #[trigger] self.slot_held(bt, s) by {
                let p = if self.index@.contains_key(bt) { self.slot(bt, s) } else { self.next_region * VALUES_PER_BLOCK + s };
                assert(old(self).storage.value(p) is Some);
                assert(self.storage.value(p) == old(self).storage.value(p));
            }
        }
        r
    }

    /// The segment's name.
    pub fn name(&self) -> (n: &str)
        ensures
            n@ == self.name_view(),
    {
        self.name.as_str()
    }

    /// The number of keys.
    pub fn keymap_len(&self) -> (n: usize)
        ensures
            n == self.key_count(),
    {
        self.keymap.len()
    }

    /// The bucket interval in seconds.
    pub fn bucket_interval(&self) -> (n: u64)
        ensures
            n == self.interval(),
    {
        self.bucket_interval
    }

    /// The segment's key map.
    pub fn keymap(&self) -> (k: &KeyMapManager)
        requires
            self.wf(),
        ensures
            k.wf(),
            k@ == self.keys(),
    {
        &self.keymap
    }

    /// The segment's index.
    pub fn index(&self) -> (i: &IndexManager)
        requires
            self.wf(),
        ensures
            i.wf(),
            i@ == self.buckets(),
            i.times() == self.bucket_times(),
    {
        &self.index
    }
}

} // verus!

verus! {

impl Segment {
    /// After a successful store, the key has its sequence number, the bucket has a region, and the
    /// key reads back the value stored at the bucket.
    pub proof fn lemma_read_after_store(&self, later: &Self, timestamp: u64, key: Seq<char>, v: Value, r: Result<()>)
        requires
            self.stores(later, timestamp, key, v, r),
            r is Ok,
        ensures
            ({
                let bt = spec_bucket_time(timestamp, self.interval()) as u64;
                let s = later.keys().key_to_seq[key];
                &&& later.keys().key_to_seq.contains_key(key)
                &&& s == self.keys().seq_for(key)
                &&& s < VALUES_PER_BLOCK
                &&& later.buckets().contains_key(bt)
                &&& later.value_at(bt, s as int) == v
                &&& later.present(bt, s as int)
            }),
    {
    }

    /// Where distinct buckets have disjoint regions, a store changes the value and the presence of
    /// its own key at its own bucket and nothing else, and the regions stay disjoint.
    pub proof fn lemma_store_keeps_others(
        &self,
        later: &Self,
        timestamp: u64,
        key: Seq<char>,
        v: Value,
        r: Result<()>,
        b: BucketTime,
        t: int,
    )
        requires
            self.stores(later, timestamp, key, v, r),
            self.regions_disjoint(),
            (b, t) != (spec_bucket_time(timestamp, self.interval()) as u64, self.keys().seq_for(key) as int),
        ensures
            later.regions_disjoint(),
            later.value_at(b, t) == self.value_at(b, t),
            later.present(b, t) == self.present(b, t),
    {
        let bt = spec_bucket_time(timestamp, self.interval()) as u64;
        let s = self.keys().seq_for(key) as int;
        if self.buckets().contains_key(bt) {
            assert(later.index@ == self.index@);
        }
        if later.buckets().contains_key(bt) {
            later.lemma_apart(bt, s, b, t);
            if b == bt {
                assert(t != s);
            }
        }
    }

    /// Aggregating a single bucket gives its values, and 1 exactly where values were stored.
    pub proof fn lemma_aggregate_one_bucket(&self, bt: BucketTime, s: int)
        requires
            self.wf(),
            self.buckets().contains_key(bt),
        ensures
            self.sum_value(bt, bt, s) == self.value_at(bt, s),
            self.unique_value(bt, bt, s) == if self.present(bt, s) { 1u64 } else { 0u64 },
    {
        self.index.lemma_times_in_range(bt, bt);
        crate::index::lemma_sorted_single(self.times_in_range(bt, bt), bt);
        let ts = self.times_in_range(bt, bt);
        let f = |b: BucketTime| self.value_at(b, s);
        assert(ts.drop_last() =~= Seq::<BucketTime>::empty());
        assert(sum_over(ts.drop_last(), f) == 0);
        assert(ts.last() == bt);
        assert(f(bt) == self.value_at(bt, s));
        assert(sum_over(ts, f) == sum_over(ts.drop_last(), f) + f(ts.last()));
        assert(sum_over(ts, f) == self.value_at(bt, s));
        vstd::arithmetic::div_mod::lemma_small_mod(self.value_at(bt, s) as nat, 0x1_0000_0000_0000_0000);
        if self.present(bt, s) {
            assert(self.present(ts[0], s));
        }
    }

    /// After a successful store at bucket `bt`, every range that holds `bt` counts the key as present.
    pub proof fn lemma_unique_after_store(
        &self,
        later: &Self,
        timestamp: u64,
        key: Seq<char>,
        v: Value,
        r: Result<()>,
        from: BucketTime,
        to: BucketTime,
    )
        requires
            self.stores(later, timestamp, key, v, r),
            r is Ok,
            from <= spec_bucket_time(timestamp, self.interval()) <= to,
        ensures
            later.unique_value(from, to, later.keys().key_to_seq[key] as int) == 1,
    {
        let bt = spec_bucket_time(timestamp, self.interval()) as u64;
        let s = later.keys().key_to_seq[key] as int;
        later.index.lemma_times_in_range(from, to);
        let ts = later.times_in_range(from, to);
        assert(ts.contains(bt));
        let k = choose|k: int| 0 <= k < ts.len() && ts[k] == bt;
        assert(later.present(ts[k], s));
    }
}

impl Segment {
    /// A bucket's value is read from the bytes of the block that holds its storage position,
    /// and is 0 where no block does.
    pub proof fn lemma_value_from_region(&self, bt: BucketTime, s: int)
        requires
            self.wf(),
            self.buckets().contains_key(bt),
            0 <= s < VALUES_PER_BLOCK,
        ensures
            self.region_data(self.slot(bt, s) / VALUES_PER_BLOCK as int) matches Some(b) ==> self.value_at(bt, s)
                == crate::storage::value_at(b, self.slot(bt, s) % VALUES_PER_BLOCK as int),
            self.region_data(self.slot(bt, s) / VALUES_PER_BLOCK as int) is None ==> self.value_at(bt, s) == 0,
    {
        self.storage.lemma_region(self.slot(bt, s));
    }

    /// Reopening keeps every value: a segment reloaded with the same buckets, from maps that hold,
    /// for each region that a bucket's values lie in, the bytes of that region's block at the
    /// time of saving, reads every value as the saved segment did.
    pub proof fn lemma_reopen(&self, later: &Self, rv: Seq<(usize, Seq<u8>)>)
        requires
            self.wf(),
            later.buckets() == self.buckets(),
            forall|bt: BucketTime, s: int|
                later.buckets().contains_key(bt) && 0 <= s < VALUES_PER_BLOCK ==> #[trigger] later.value_at(bt, s)
                    == saved_region_value(rv, later.buckets()[bt].offset / 8 + s),
            forall|bt: BucketTime, s: int|
                self.buckets().contains_key(bt) && 0 <= s < VALUES_PER_BLOCK ==> saved_bytes(
                    rv,
                    (self.buckets()[bt].offset / 8 + s) / VALUES_PER_BLOCK as int,
                ) == #[trigger] self.region_data((self.buckets()[bt].offset / 8 + s) / VALUES_PER_BLOCK as int),
        ensures
            forall|bt: BucketTime, s: int| #[trigger] later.value_at(bt, s) == self.value_at(bt, s),
    {
        assert forall|bt: BucketTime, s: int| #[trigger] later.value_at(bt, s) == self.value_at(bt, s) by {
            if self.buckets().contains_key(bt) && 0 <= s < VALUES_PER_BLOCK {
                self.lemma_value_from_region(bt, s);
                let p = self.buckets()[bt].offset / 8 + s;
                assert(self.slot(bt, s) == p);
                assert(saved_bytes(rv, p / VALUES_PER_BLOCK as int) == self.region_data(p / VALUES_PER_BLOCK as int));
                assert(later.value_at(bt, s) == saved_region_value(rv, p));
            } else {
                assert(later.buckets().contains_key(bt) == self.buckets().contains_key(bt));
            }
        }
    }
}

impl Segment {
    /// Where regions are disjoint, a store keeps the sequence numbers that no key has yet
    /// reading 0.
    pub proof fn lemma_store_keeps_fresh(&self, later: &Self, timestamp: u64, key: Seq<char>, v: Value, r: Result<()>)
        requires
            self.stores(later, timestamp, key, v, r),
            self.regions_disjoint(),
            self.fresh_zero(),
            self.keys().can_take(key),
        ensures
            later.fresh_zero(),
    {
        let bt = spec_bucket_time(timestamp, self.interval()) as u64;
        let s = self.keys().seq_for(key) as int;
        if self.keys().key_to_seq.contains_key(key) {
            assert(self.keys().key_to_seq[key] < self.keys().next_seq);
        }
        assert(s < later.keys().next_seq);
        assert forall|k: Seq<char>| #[trigger] later.keys().key_to_seq.contains_key(k) implies later.keys().key_to_seq[k]
            < later.keys().next_seq by {
            if k != key {
                assert(self.keys().key_to_seq.contains_key(k));
            }
        }
        if self.buckets().contains_key(bt) {
            assert(later.index@ == self.index@);
        }
        assert forall|b: BucketTime, t: int| later.keys().next_seq <= t implies #[trigger] later.value_at(b, t) == 0 by {
            assert(t != s);
            if later.buckets().contains_key(bt) {
                later.lemma_apart(bt, s, b, t);
            }
            if r is Err {
                assert(later.value_at(b, t) == self.value_at(b, t));
            } else if s >= VALUES_PER_BLOCK {
            } else {
                assert(later.value_at(b, t) == self.value_at(b, t));
            }
        }
    }

    /// A key that has no sequence number yet reads 0 at every bucket, so accumulating into it
    /// starts from 0.
    pub proof fn lemma_new_key_reads_zero(&self, bt: BucketTime, key: Seq<char>)
        requires
            self.fresh_zero(),
            !self.keys().key_to_seq.contains_key(key),
        ensures
            self.value_at(bt, self.keys().seq_for(key) as int) == 0,
    {
    }
}

impl Segment {
    /// The bucket times from `from` to `to` are the segment's buckets in that range, each once, in
    /// increasing order; a range that holds no bucket, such as one with `from > to`, gives none.
    pub proof fn lemma_times_in_range(&self, from: BucketTime, to: BucketTime)
        requires
            self.wf(),
        ensures
            crate::index::strictly_sorted(self.times_in_range(from, to)),
            forall|t: BucketTime| #[trigger] self.times_in_range(from, to).contains(t) <==> (self.buckets().contains_key(t)
                && from <= t && t <= to),
            (forall|t: BucketTime| self.buckets().contains_key(t) ==> !(from <= t && t <= to)) ==> self.times_in_range(from, to).len() == 0,
    {
        self.index.lemma_times_in_range(from, to);
        let ts = self.times_in_range(from, to);
        if ts.len() > 0 {
            let t0 = ts[0];
            assert(ts.contains(t0));
            assert(self.buckets().contains_key(t0) && from <= t0 && t0 <= to);
        }
    }
}

impl Segment {
    /// The index entry that a new bucket of region `region` gets names the data file that keeps the
    /// region: joined to the segment's directory, the entry's file name is the path of the data
    /// file that holds the region, when the storage has it.
    pub proof fn lemma_region_entry_file(&self, e: IndexEntry, region: nat, keys: nat)
        requires
            self.wf(),
            is_region_entry(e, region, keys),
            self.region_file(region as int) is Some,
        ensures
            self.region_file(region as int) == Some(self.data_dir() + "/"@ + e.file_path@),
    {
        self.storage.lemma_region_file(region as int);
    }

    /// After a successful store that created its bucket, the bucket's index entry names the data
    /// file that holds the bucket's values.
    pub proof fn lemma_new_bucket_file(&self, later: &Self, timestamp: u64, key: Seq<char>, v: Value, r: Result<()>)
        requires
            self.stores(later, timestamp, key, v, r),
            r is Ok,
            !self.buckets().contains_key(spec_bucket_time(timestamp, self.interval()) as u64),
            self.has_room(),
        ensures
            ({
                let bt = spec_bucket_time(timestamp, self.interval()) as u64;
                later.region_file(self.next_region() as int) == Some(later.data_dir() + "/"@ + later.buckets()[bt].file_path@)
            }),
    {
        let bt = spec_bucket_time(timestamp, self.interval()) as u64;
        let s = self.keys().seq_for(key) as int;
        let region = self.next_region() as int;
        assert(s < VALUES_PER_BLOCK);
        assert(later.slot_held(bt, s));
        let offset = later.index@[bt].offset as int;
        assert(offset == region * VBLOCK_SIZE);
        vstd::arithmetic::div_mod::lemma_fundamental_div_mod_converse(offset, 8, region * VALUES_PER_BLOCK, 0);
        crate::storage::lemma_position(region, s);
        later.storage.lemma_region(later.slot(bt, s));
        later.storage.lemma_region_file(region);
        later.lemma_region_entry_file(later.buckets()[bt], self.next_region(), later.key_count());
    }
}

} // verus!
