//! The database: named segments that share a bucket interval.
use memmap2::MmapMut;
use rayon::iter::{IntoParallelRefIterator, ParallelIterator};
use vstd::prelude::*;

use crate::error::{Result, TsDbError};
use crate::mapped::mapped_bytes;
use crate::keymap::KeyMapView;
use crate::segment::{is_region_entry, lemma_wrap_step, wrap, wrapping_sum, Segment};
use crate::{spec_bucket_time, BucketTime, Value, DEFAULT_BUCKET_INTERVAL, DEFAULT_SEGMENT};

verus! {

/// What aggregating one segment gives: its sums with `sum`, else its unique flags.
pub open spec fn aggregated(seg: Segment, from: BucketTime, to: BucketTime, sum: bool, v: Seq<Value>) -> bool {
    &&& v.len() == seg.key_count()
    &&& forall|s: int| 0 <= s < v.len() ==> #[trigger] v[s] == if sum {
        seg.sum_value(from, to, s)
    } else {
        seg.unique_value(from, to, s)
    }
}

/// Calls rayon's `par_iter().map(..).collect::<Vec<_>>()` on the segments, the closure calling
/// `Segment::aggregate`: rayon collects an indexed parallel iterator into a vector in the order of
/// its items, so the result holds each segment's aggregate, in the order of the segments.
#[verifier::external_body]
fn aggregate_in_parallel(segments: &Vec<Segment>, from: BucketTime, to: BucketTime, sum: bool) -> (r: Vec<Vec<Value>>)
    requires
        forall|i: int| 0 <= i < segments@.len() ==> (#[trigger] segments@[i]).wf(),
    ensures
        r@.len() == segments@.len(),
        forall|i: int| 0 <= i < r@.len() ==> aggregated(segments@[i], from, to, sum, (#[trigger] r@[i])@),
{
    segments.par_iter().map(|s| s.aggregate(from, to, sum)).collect()
}

/// Combines the aggregates of several segments position by position, over the length of the
/// first: with `sum`, the wrapped sum of the values at that position; else 1 when one of them
/// is positive there.
pub open spec fn combined(results: Seq<Seq<Value>>, sum: bool, i: int) -> Value
    decreases results.len(),
{
    if results.len() == 0 {
        0
    } else {
        let prev = combined(results.drop_last(), sum, i);
        let last = results.last();
        if i < last.len() {
            if sum {
                wrapping_sum(prev, last[i])
            } else if last[i] > 0 {
                1
            } else {
                prev
            }
        } else {
            prev
        }
    }
}

/// The time series database: segments by name, each under `base_path/segment_<name>`.
pub struct TsDb {
    segments: Vec<Segment>,
    base_path: String,
    bucket_interval: u64,
}

impl TsDb {
    /// The segments, in the order they were created.
    pub closed spec fn segs(&self) -> Seq<Segment> {
        self.segments@
    }

    /// The bucket interval of the database.
    pub closed spec fn interval(&self) -> u64 {
        self.bucket_interval
    }

    /// The base directory.
    pub closed spec fn base(&self) -> Seq<char> {
        self.base_path@
    }

    /// Whether the database has a segment named `name`.
    pub open spec fn has(&self, name: Seq<char>) -> bool {
        exists|i: int| 0 <= i < self.segs().len() && (#[trigger] self.segs()[i]).name_view() == name
    }

    /// The position of the segment named `name`.
    pub open spec fn position(&self, name: Seq<char>) -> int {
        choose|i: int| 0 <= i < self.segs().len() && (#[trigger] self.segs()[i]).name_view() == name
    }

    /// The segment named `name`.
    pub open spec fn seg(&self, name: Seq<char>) -> Segment {
        self.segs()[self.position(name)]
    }

    /// The invariant: each segment is well formed, uses the database's bucket interval, and has a
    /// name of its own.
    pub closed spec fn wf(&self) -> bool {
        &&& forall|i: int| 0 <= i < self.segments@.len() ==> (#[trigger] self.segments@[i]).wf()
        &&& forall|i: int| 0 <= i < self.segments@.len() ==> (#[trigger] self.segments@[i]).interval() == self.bucket_interval
        &&& forall|i: int, j: int| 0 <= i < j < self.segments@.len() ==> self.segments@[i].name_view() != self.segments@[j].name_view()
    }

    /// The segment named `name` is well formed, uses the database's interval, and is the only
    /// segment of that name.
    pub proof fn lemma_seg(&self, name: Seq<char>)
        requires
            self.wf(),
            self.has(name),
        ensures
            0 <= self.position(name) < self.segs().len(),
            self.seg(name).name_view() == name,
            self.seg(name).wf(),
            self.seg(name).interval() == self.interval(),
            forall|i: int| 0 <= i < self.segs().len() && (#[trigger] self.segs()[i]).name_view() == name ==> i == self.position(name),
    {
        let p = self.position(name);
        assert forall|i: int| 0 <= i < self.segs().len() && (#[trigger] self.segs()[i]).name_view() == name implies i == p by {
            if i < p {
                assert(self.segments@[i].name_view() != self.segments@[p].name_view());
            } else if i > p {
                assert(self.segments@[p].name_view() != self.segments@[i].name_view());
            }
        }
    }

    /// A database under `base_path` with no segment and buckets of `DEFAULT_BUCKET_INTERVAL` seconds.
    pub fn new(base_path: String) -> (r: Result<Self>)
        ensures
            r matches Ok(db) && db.wf() && db.segs().len() == 0 && db.interval() == DEFAULT_BUCKET_INTERVAL
                && db.base() == base_path@,
    {
        Ok(TsDb { segments: Vec::new(), base_path, bucket_interval: DEFAULT_BUCKET_INTERVAL })
    }

    /// A database under `base_path` with no segment and buckets of `bucket_interval` seconds.
    pub fn with_bucket_interval(base_path: String, bucket_interval: u64) -> (r: Result<Self>)
        ensures
            r matches Ok(db) && db.wf() && db.segs().len() == 0 && db.interval() == bucket_interval
                && db.base() == base_path@,
    {
        Ok(TsDb { segments: Vec::new(), base_path, bucket_interval })
    }

    /// The position of the segment named `name`, if there is one.
    fn find(&self, name: &str) -> (r: Option<usize>)
        requires
            self.wf(),
        ensures
            r matches Some(i) ==> i < self.segs().len() && self.has(name@) && i == self.position(name@),
            r is None ==> !self.has(name@),
    {
        let wanted = String::from_str(name);
        let mut i: usize = 0;
        while i < self.segments.len()
            invariant
                self.wf(),
                i <= self.segments@.len(),
                wanted@ == name@,
                forall|j: int| 0 <= j < i ==> (#[trigger] self.segments@[j]).name_view() != name@,
            decreases self.segments@.len() - i,
        {
            let n = String::from_str(self.segments[i].name());
            if n == wanted {
                proof {
                    self.lemma_seg(name@);
                }
                return Some(i);
            }
            i = i + 1;
        }
        None
    }

    /// The path of the directory of segment `name`: `base_path/segment_<name>`.
    pub open spec fn segment_dir(&self, name: Seq<char>) -> Seq<char> {
        self.base() + "/segment_"@ + name
    }

    /// The directory of segment `name`.
    pub fn segment_path(&self, name: &str) -> (p: String)
        ensures
            p@ == self.segment_dir(name@),
    {
        let mut p = String::from_str(self.base_path.as_str());
        p.append("/segment_");
        p.append(name);
        p
    }

    /// The segment named `name`, if there is one.
    pub fn segment(&self, name: &str) -> (r: Option<&Segment>)
        requires
            self.wf(),
        ensures
            self.has(name@) ==> r == Some(&self.seg(name@)),
            !self.has(name@) ==> r is None,
    {
        match self.find(name) {
            Some(i) => Some(&self.segments[i]),
            None => None,
        }
    }

    /// Adds `segment`, which the caller has opened from its files, unless a segment of its name exists.
    pub fn add_segment(&mut self, segment: Segment) -> (added: bool)
        requires
            old(self).wf(),
            segment.wf(),
            segment.interval() == old(self).interval(),
        ensures
            final(self).wf(),
            final(self).interval() == old(self).interval(),
            final(self).base() == old(self).base(),
            added == !old(self).has(segment.name_view()),
            added ==> final(self).segs() == old(self).segs().push(segment),
            !added ==> final(self).segs() == old(self).segs(),
    {
        match self.find(segment.name()) {
            Some(_) => false,
            None => {
                self.segments.push(segment);
                true
            },
        }
    }

    /// The position of segment `name`, created empty when there is none.
    fn get_or_create_segment(&mut self, name: &str) -> (r: Result<usize>)
        requires
            old(self).wf(),
        ensures
            final(self).wf(),
            final(self).interval() == old(self).interval(),
            final(self).base() == old(self).base(),
            old(self).has(name@) ==> r == Ok::<usize, TsDbError>(old(self).position(name@) as usize) && final(self).segs() == old(self).segs(),
            !old(self).has(name@) ==> match r {
                Ok(i) => {
                    &&& i == old(self).segs().len()
                    &&& final(self).segs().len() == i + 1
                    &&& final(self).segs().take(i as int) == old(self).segs()
                    &&& final(self).segs()[i as int].keys() == KeyMapView::empty()
                    &&& final(self).segs()[i as int].buckets() == Map::<BucketTime, crate::index::IndexEntry>::empty()
                    &&& final(self).segs()[i as int].regions_disjoint()
                    &&& final(self).segs()[i as int].name_view() == name@
                    &&& final(self).segs()[i as int].next_region() == 0
                    &&& final(self).segs()[i as int].has_room()
                    &&& forall|b: BucketTime, s: int| !(#[trigger] final(self).segs()[i as int].present(b, s))
                    &&& forall|b: BucketTime, s: int| #[trigger] final(self).segs()[i as int].value_at(b, s) == 0
                    &&& forall|b: BucketTime, s: int| 0 <= s < crate::VALUES_PER_BLOCK ==> #[trigger] final(self).segs()[i as int].slot_held(b, s)
                },
                Err(e) => e is Io && final(self).segs() == old(self).segs(),
            },
    {
        match self.find(name) {
            Some(i) => Ok(i),
            None => {
                let path = self.segment_path(name);
                let seg = match Segment::new(String::from_str(name), path, self.bucket_interval) {
                    Ok(s) => s,
                    Err(e) => return Err(e),
                };
                let i = self.segments.len();
                let ghost sg = seg;
                self.segments.push(seg);
                assert(self.segments@.take(i as int) =~= old(self).segments@);
                proof {
                    assert forall|a: int, b: int| 0 <= a < b < self.segments@.len() implies self.segments@[a].name_view()
                        != self.segments@[b].name_view() by {
                        if b == i {
                            assert(old(self).segments@[a] == self.segments@[a]);
                            assert(!(old(self).segs()[a].name_view() == name@));
                        } else {
                            assert(old(self).segments@[a] == self.segments@[a]);
                            assert(old(self).segments@[b] == self.segments@[b]);
                        }
                    }
                }
                Ok(i)
            },
        }
    }
}


impl TsDb {
    /// What storing into segment `name` does: an existing segment stores as `Segment::stores`
    /// says; a missing one is created first, empty, and the key gets sequence number 0 in it,
    /// where the store succeeds: only creating the segment can fail.
    /// The other segments stay as they are.
    pub open spec fn puts(&self, later: &Self, name: Seq<char>, timestamp: u64, key: Seq<char>, value: Value, accumulate: bool, r: Result<()>) -> bool {
        let bt = spec_bucket_time(timestamp, self.interval()) as u64;
        &&& later.wf()
        &&& later.interval() == self.interval()
        &&& later.base() == self.base()
        &&& self.has(name) ==> {
            let old_seg = self.seg(name);
            let v = if accumulate {
                wrapping_sum(old_seg.value_at(bt, old_seg.keys().seq_for(key) as int), value)
            } else {
                value
            };
            &&& later.segs() == self.segs().update(self.position(name), later.segs()[self.position(name)])
            &&& later.has(name) && later.position(name) == self.position(name)
            &&& old_seg.stores(&later.seg(name), timestamp, key, v, r)
            &&& old_seg.regions_disjoint() && old_seg.fresh_zero() ==> later.seg(name).fresh_zero()
        }
        &&& !self.has(name) ==> {
            ||| (r matches Err(e) && e is Io) && later.segs() == self.segs()
            ||| {
                let n = later.segs()[self.segs().len() as int];
                &&& later.segs().len() == self.segs().len() + 1
                &&& later.segs().take(self.segs().len() as int) == self.segs()
                &&& later.has(name) && later.position(name) == self.segs().len()
                &&& n.keys() == KeyMapView::empty().with_key(key)
                &&& n.buckets().contains_key(bt) && n.buckets().dom() == set![bt]
                &&& is_region_entry(n.buckets()[bt], 0, 1)
                &&& n.regions_disjoint()
                &&& n.fresh_zero()
                &&& r is Ok
                &&& n.value_at(bt, 0) == value && n.present(bt, 0)
                &&& forall|b: BucketTime, t: int| (b, t) != (bt, 0int) ==> #[trigger] n.value_at(b, t) == 0 && !n.present(b, t)
            }
        }
    }

    fn put(&mut self, segment: &str, timestamp: u64, key: &str, value: Value, accumulate: bool) -> (r: Result<()>)
        requires
            old(self).wf(),
            old(self).interval() > 0,
            old(self).has(segment@) ==> old(self).seg(segment@).can_store(key@),
        ensures
            old(self).puts(&*final(self), segment@, timestamp, key@, value, accumulate, r),
    {
        let existed = self.find(segment).is_some();
        let i = match self.get_or_create_segment(segment) {
            Ok(i) => i,
            Err(e) => return Err(e),
        };
        let ghost mid = *self;
        proof {
            if existed {
                old(self).lemma_seg(segment@);
            } else {
                assert(self.segs()[i as int].name_view() == segment@);
                assert(self.segs()[i as int].keys().next_seq == 0);
            }
            assert(self.segments@[i as int].wf());
            assert(self.segments@[i as int].interval() == self.bucket_interval);
        }
        let r = if accumulate {
            self.segments[i].accumulate(timestamp, key, value)
        } else {
            self.segments[i].insert(timestamp, key, value)
        };
        proof {
            assert(self.segments@ == mid.segments@.update(i as int, self.segments@[i as int]));
            assert forall|a: int, b: int| 0 <= a < b < self.segments@.len() implies self.segments@[a].name_view()
                != self.segments@[b].name_view() by {
                assert(mid.segments@[a].name_view() != mid.segments@[b].name_view());
            }
            assert(self.wf());
            assert(self.has(segment@)) by {
                assert(self.segs()[i as int].name_view() == segment@);
            }
            self.lemma_seg(segment@);
            mid.lemma_seg(segment@);
            if !existed {
                let n = self.segs()[i as int];
                let f = mid.segs()[i as int];
                let bt = spec_bucket_time(timestamp, self.interval()) as u64;
                assert(f.keys().seq_for(key@) == 0);
                assert(f.value_at(bt, 0) == 0);
                assert(f.slot_held(bt, 0));
                assert(n.buckets() == f.buckets().insert(bt, n.buckets()[bt]));
                assert(n.buckets().dom() =~= set![bt]);
                assert forall|b: BucketTime, t: int| (b, t) != (bt, 0int) implies #[trigger] n.value_at(b, t) == 0 && !n.present(b, t) by {
                    n.lemma_apart(bt, 0, b, t);
                    if b != bt {
                        assert(!f.buckets().contains_key(b));
                    }
                    assert(n.present(b, t) == f.present(b, t));
                }
                if accumulate {
                    assert(wrapping_sum(0, value) == value);
                }
                assert(self.segs().take(mid.segs().len() - 1) == old(self).segs()) by {
                    assert(self.segs().take(mid.segs().len() - 1) =~= mid.segs().take(mid.segs().len() - 1));
                }
            }
        }
        r
    }

    /// Stores `value` for `key` at the bucket of `timestamp` in segment `segment`, which is created
    /// when there is none.
    pub fn insert(&mut self, segment: &str, timestamp: u64, key: &str, value: Value) -> (r: Result<()>)
        requires
            old(self).wf(),
            old(self).interval() > 0,
            old(self).has(segment@) ==> old(self).seg(segment@).can_store(key@),
        ensures
            old(self).puts(&*final(self), segment@, timestamp, key@, value, false, r),
    {
        self.put(segment, timestamp, key, value, false)
    }

    /// Adds `value` to what `key` holds at the bucket of `timestamp` in segment `segment`, which is
    /// created when there is none; sums wrap around at `u64::MAX`.
    pub fn accumulate(&mut self, segment: &str, timestamp: u64, key: &str, value: Value) -> (r: Result<()>)
        requires
            old(self).wf(),
            old(self).interval() > 0,
            old(self).has(segment@) ==> old(self).seg(segment@).can_store(key@),
        ensures
            old(self).puts(&*final(self), segment@, timestamp, key@, value, true, r),
    {
        self.put(segment, timestamp, key, value, true)
    }
}


impl TsDb {
    /// Moves the values of region `region` of segment `segment` into `data`, the map of that
    /// region's block of one of the segment's data files, as `Segment::back_region` does; every
    /// value of every segment stays as it was.
    pub fn back_region(&mut self, segment: &str, region: usize, data: MmapMut) -> (r: Result<()>)
        requires
            old(self).wf(),
            region < usize::MAX / crate::VBLOCK_SIZE,
        ensures
            final(self).wf(),
            final(self).interval() == old(self).interval(),
            final(self).base() == old(self).base(),
            !old(self).has(segment@) ==> (r matches Err(TsDbError::SegmentNotFound(n)) && n@ == segment@) && *final(self) == *old(self),
            old(self).has(segment@) ==> {
                let p = old(self).position(segment@);
                let before = old(self).seg(segment@);
                let after = final(self).segs()[p];
                &&& final(self).segs() == old(self).segs().update(p, after)
                &&& final(self).has(segment@) && final(self).position(segment@) == p
                &&& after.keys() == before.keys()
                &&& after.buckets() == before.buckets()
                &&& after.next_region() == before.next_region()
                &&& after.regions_disjoint() == before.regions_disjoint()
                &&& forall|bt: BucketTime, s: int| #[trigger] after.value_at(bt, s) == before.value_at(bt, s)
                &&& forall|bt: BucketTime, s: int| #[trigger] after.present(bt, s) == before.present(bt, s)
                &&& forall|bt: BucketTime, s: int| before.slot_held(bt, s) ==> #[trigger] after.slot_held(bt, s)
                &&& r is Ok ==> after.region_data(region as int) is Some
                &&& mapped_bytes(data).len() != crate::VBLOCK_SIZE ==> (r matches Err(TsDbError::Storage(_)))
                &&& mapped_bytes(data).len() == crate::VBLOCK_SIZE ==> (r matches Err(e) ==> e is Io)
                &&& mapped_bytes(data).len() == crate::VBLOCK_SIZE && before.region_data(region as int) is Some ==> r is Ok
            },
    {
        match self.find(segment) {
            Some(i) => {
                proof {
                    self.lemma_seg(segment@);
                }
                let ghost mid = *self;
                let r = self.segments[i].back_region(region, data);
                proof {
                    assert(self.segments@ == mid.segments@.update(i as int, self.segments@[i as int]));
                    assert forall|a: int, b: int| 0 <= a < b < self.segments@.len() implies self.segments@[a].name_view()
                        != self.segments@[b].name_view() by {
                        assert(mid.segments@[a].name_view() != mid.segments@[b].name_view());
                    }
                    assert(self.has(segment@)) by {
                        assert(self.segs()[i as int].name_view() == segment@);
                    }
                    self.lemma_seg(segment@);
                }
                r
            },
            None => Err(TsDbError::SegmentNotFound(String::from_str(segment))),
        }
    }

    /// The values at bucket `bucket_time` of segment `segment`, by sequence number.
    pub fn get_all_at(&self, segment: &str, bucket_time: BucketTime) -> (r: Result<Vec<Value>>)
        requires
            self.wf(),
        ensures
            !self.has(segment@) ==> (r matches Err(TsDbError::SegmentNotFound(n)) && n@ == segment@),
            self.has(segment@) ==> (r matches Ok(v) && v@.len() == self.seg(segment@).key_count() && forall|s: int|
                0 <= s < v@.len() ==> #[trigger] v@[s] == self.seg(segment@).value_at(bucket_time, s)),
    {
        match self.find(segment) {
            Some(i) => {
                proof {
                    self.lemma_seg(segment@);
                }
                self.segments[i].get_all_at(bucket_time)
            },
            None => Err(TsDbError::SegmentNotFound(String::from_str(segment))),
        }
    }

    /// The value of `key` at bucket `bucket_time` of segment `segment`.
    pub fn get_key_at(&self, segment: &str, bucket_time: BucketTime, key: &str) -> (r: Result<Value>)
        requires
            self.wf(),
        ensures
            !self.has(segment@) ==> (r matches Err(TsDbError::SegmentNotFound(n)) && n@ == segment@),
            self.has(segment@) ==> {
                let seg = self.seg(segment@);
                &&& !seg.keys().key_to_seq.contains_key(key@) ==> (r matches Err(TsDbError::KeyNotFound(k)) && k@ == key@)
                &&& seg.keys().key_to_seq.contains_key(key@) && seg.keys().key_to_seq[key@] >= crate::VALUES_PER_BLOCK
                    ==> (r matches Err(TsDbError::InvalidSeq(s)) && s == seg.keys().key_to_seq[key@])
                &&& seg.keys().key_to_seq.contains_key(key@) && seg.keys().key_to_seq[key@] < crate::VALUES_PER_BLOCK
                    ==> r == Ok::<Value, TsDbError>(seg.value_at(bucket_time, seg.keys().key_to_seq[key@] as int))
            },
    {
        match self.find(segment) {
            Some(i) => {
                proof {
                    self.lemma_seg(segment@);
                }
                self.segments[i].get_key_at(bucket_time, key)
            },
            None => Err(TsDbError::SegmentNotFound(String::from_str(segment))),
        }
    }

    /// The unique flags of segment `segment` over the buckets from `from` to `to`.
    pub fn aggr_unique(&self, segment: &str, from: BucketTime, to: BucketTime) -> (r: Result<Vec<Value>>)
        requires
            self.wf(),
        ensures
            !self.has(segment@) ==> (r matches Err(TsDbError::SegmentNotFound(n)) && n@ == segment@),
            self.has(segment@) ==> (r matches Ok(v) && aggregated(self.seg(segment@), from, to, false, v@)),
    {
        match self.find(segment) {
            Some(i) => {
                proof {
                    self.lemma_seg(segment@);
                }
                self.segments[i].aggr_unique(from, to)
            },
            None => Err(TsDbError::SegmentNotFound(String::from_str(segment))),
        }
    }

    /// The sums of segment `segment` over the buckets from `from` to `to`.
    pub fn aggr_sum(&self, segment: &str, from: BucketTime, to: BucketTime) -> (r: Result<Vec<Value>>)
        requires
            self.wf(),
        ensures
            !self.has(segment@) ==> (r matches Err(TsDbError::SegmentNotFound(n)) && n@ == segment@),
            self.has(segment@) ==> (r matches Ok(v) && aggregated(self.seg(segment@), from, to, true, v@)),
    {
        match self.find(segment) {
            Some(i) => {
                proof {
                    self.lemma_seg(segment@);
                }
                self.segments[i].aggr_sum(from, to)
            },
            None => Err(TsDbError::SegmentNotFound(String::from_str(segment))),
        }
    }

    /// Combines the aggregates of the segments, over the length of the first segment's.
    pub fn combine(results: &Vec<Vec<Value>>, sum: bool) -> (v: Vec<Value>)
        ensures
            results@.len() == 0 ==> v@.len() == 0,
            results@.len() > 0 ==> v@.len() == results@[0]@.len() && forall|i: int| 0 <= i < v@.len() ==> #[trigger] v@[i]
                == combined(results@.map_values(|r: Vec<Value>| r@), sum, i),
    {
        let ghost rs = results@.map_values(|r: Vec<Value>| r@);
        if results.len() == 0 {
            return Vec::new();
        }
        let n = results[0].len();
        let mut combined_values: Vec<Value> = Vec::new();
        let mut i: usize = 0;
        while i < n
            invariant
                i <= n,
                combined_values@.len() == i,
                forall|k: int| 0 <= k < i ==> #[trigger] combined_values@[k] == 0,
            decreases n - i,
        {
            combined_values.push(0);
            i = i + 1;
        }
        let mut j: usize = 0;
        while j < results.len()
            invariant
                j <= results@.len(),
                rs == results@.map_values(|r: Vec<Value>| r@),
                combined_values@.len() == n,
                forall|k: int| 0 <= k < n ==> #[trigger] combined_values@[k] == combined(rs.take(j as int), sum, k),
            decreases results@.len() - j,
        {
            let values = &results[j];
            let mut k: usize = 0;
            assert(rs.take(j + 1).drop_last() =~= rs.take(j as int));
            assert(rs.take(j + 1).last() == values@);
            while k < values.len() && k < n
                invariant
                    j < results@.len(),
                    rs.len() == results@.len(),
                    values@ == rs[j as int],
                    rs.take(j + 1).drop_last() == rs.take(j as int),
                    rs.take(j + 1).last() == values@,
                    combined_values@.len() == n,
                    k <= n,
                    forall|m: int| 0 <= m < n ==> #[trigger] combined_values@[m] == combined(rs.take(if m < k { j + 1 } else { j as int }), sum, m),
                decreases n - k,
            {
                let value = values[k];
                proof {
                    assert(combined(rs.take(j + 1), sum, k as int) == if sum {
                        wrapping_sum(combined(rs.take(j as int), sum, k as int), value)
                    } else if value > 0 {
                        1
                    } else {
                        combined(rs.take(j as int), sum, k as int)
                    });
                }
                if sum {
                    let c = combined_values[k];
                    combined_values.set(k, c.wrapping_add(value));
                } else if value > 0 {
                    combined_values.set(k, 1);
                }
                k = k + 1;
            }
            proof {
                assert forall|m: int| 0 <= m < n implies #[trigger] combined_values@[m] == combined(rs.take(j + 1), sum, m) by {
                    if m >= k {
                        assert(m >= values@.len());
                    }
                }
            }
            j = j + 1;
        }
        assert(rs.take(j as int) =~= rs);
        combined_values
    }

    /// The aggregates of the segments, in their order.
    pub open spec fn all_aggregates(&self, from: BucketTime, to: BucketTime, sum: bool, rs: Seq<Seq<Value>>) -> bool {
        &&& rs.len() == self.segs().len()
        &&& forall|i: int| 0 <= i < rs.len() ==> aggregated(self.segs()[i], from, to, sum, #[trigger] rs[i])
    }

    fn aggregate_all(&self, from: BucketTime, to: BucketTime, sum: bool) -> (r: Result<Vec<Value>>)
        requires
            self.wf(),
        ensures
            r matches Ok(v) && exists|rs: Seq<Seq<Value>>| self.all_aggregates(from, to, sum, rs) && (rs.len() == 0 ==> v@.len()
                == 0) && (rs.len() > 0 ==> v@.len() == rs[0].len() && forall|i: int| 0 <= i < v@.len() ==> #[trigger] v@[i]
                == combined(rs, sum, i)),
    {
        if self.segments.len() == 0 {
            let v: Vec<Value> = Vec::new();
            assert(self.all_aggregates(from, to, sum, Seq::<Seq<Value>>::empty()));
            return Ok(v);
        }
        let results = aggregate_in_parallel(&self.segments, from, to, sum);
        let v = Self::combine(&results, sum);
        let ghost rs = results@.map_values(|r: Vec<Value>| r@);
        assert(self.all_aggregates(from, to, sum, rs));
        Ok(v)
    }

    /// The unique flags of every segment, combined: 1 at a position where one of the segments
    /// has a value there, over the length of the first segment's.
    pub fn aggr_unique_parallel(&self, from: BucketTime, to: BucketTime) -> (r: Result<Vec<Value>>)
        requires
            self.wf(),
        ensures
            r matches Ok(v) && exists|rs: Seq<Seq<Value>>| self.all_aggregates(from, to, false, rs) && (rs.len() == 0 ==> v@.len()
                == 0) && (rs.len() > 0 ==> v@.len() == rs[0].len() && forall|i: int| 0 <= i < v@.len() ==> #[trigger] v@[i]
                == combined(rs, false, i)),
    {
        self.aggregate_all(from, to, false)
    }

    /// The sums of every segment, added position by position, wrapping around at `u64::MAX`, over
    /// the length of the first segment's.
    pub fn aggr_sum_parallel(&self, from: BucketTime, to: BucketTime) -> (r: Result<Vec<Value>>)
        requires
            self.wf(),
        ensures
            r matches Ok(v) && exists|rs: Seq<Seq<Value>>| self.all_aggregates(from, to, true, rs) && (rs.len() == 0 ==> v@.len()
                == 0) && (rs.len() > 0 ==> v@.len() == rs[0].len() && forall|i: int| 0 <= i < v@.len() ==> #[trigger] v@[i]
                == combined(rs, true, i)),
    {
        self.aggregate_all(from, to, true)
    }

    /// Syncs every segment's stored values, stopping at the first that fails; with no segment
    /// there is nothing to sync, and it succeeds.
    pub fn flush(&self) -> (r: Result<()>)
        ensures
            r matches Err(e) ==> e is Io,
            self.segs().len() == 0 ==> r is Ok,
    {
        let mut i: usize = 0;
        while i < self.segments.len()
            decreases self.segments@.len() - i,
        {
            match self.segments[i].flush() {
                Ok(()) => {},
                Err(e) => return Err(e),
            }
            i = i + 1;
        }
        Ok(())
    }

    /// The names of the segments, in the order they were created.
    pub fn segment_names(&self) -> (names: Vec<String>)
        ensures
            names@.len() == self.segs().len(),
            forall|i: int| 0 <= i < names@.len() ==> (#[trigger] names@[i])@ == self.segs()[i].name_view(),
    {
        let mut names: Vec<String> = Vec::new();
        let mut i: usize = 0;
        while i < self.segments.len()
            invariant
                i <= self.segments@.len(),
                names@.len() == i,
                forall|k: int| 0 <= k < i ==> (#[trigger] names@[k])@ == self.segs()[k].name_view(),
            decreases self.segments@.len() - i,
        {
            names.push(String::from_str(self.segments[i].name()));
            i = i + 1;
        }
        names
    }

    /// The number of segments.
    pub fn segment_count(&self) -> (n: usize)
        ensures
            n == self.segs().len(),
    {
        self.segments.len()
    }

    /// The bucket interval in seconds.
    pub fn bucket_interval(&self) -> (n: u64)
        ensures
            n == self.interval(),
    {
        self.bucket_interval
    }
}


impl TsDb {
    /// `insert` into the default segment.
    pub fn insert_default(&mut self, timestamp: u64, key: &str, value: Value) -> (r: Result<()>)
        requires
            old(self).wf(),
            old(self).interval() > 0,
            old(self).has(DEFAULT_SEGMENT@) ==> old(self).seg(DEFAULT_SEGMENT@).can_store(key@),
        ensures
            old(self).puts(&*final(self), DEFAULT_SEGMENT@, timestamp, key@, value, false, r),
    {
        self.insert(DEFAULT_SEGMENT, timestamp, key, value)
    }

    /// `accumulate` into the default segment.
    pub fn accumulate_default(&mut self, timestamp: u64, key: &str, value: Value) -> (r: Result<()>)
        requires
            old(self).wf(),
            old(self).interval() > 0,
            old(self).has(DEFAULT_SEGMENT@) ==> old(self).seg(DEFAULT_SEGMENT@).can_store(key@),
        ensures
            old(self).puts(&*final(self), DEFAULT_SEGMENT@, timestamp, key@, value, true, r),
    {
        self.accumulate(DEFAULT_SEGMENT, timestamp, key, value)
    }

    /// `get_all_at` of the default segment.
    pub fn get_all_at_default(&self, bucket_time: BucketTime) -> (r: Result<Vec<Value>>)
        requires
            self.wf(),
        ensures
            !self.has(DEFAULT_SEGMENT@) ==> (r matches Err(TsDbError::SegmentNotFound(n)) && n@ == DEFAULT_SEGMENT@),
            self.has(DEFAULT_SEGMENT@) ==> (r matches Ok(v) && v@.len() == self.seg(DEFAULT_SEGMENT@).key_count() && forall|s: int|
                0 <= s < v@.len() ==> #[trigger] v@[s] == self.seg(DEFAULT_SEGMENT@).value_at(bucket_time, s)),
    {
        self.get_all_at(DEFAULT_SEGMENT, bucket_time)
    }

    /// `get_key_at` of the default segment.
    pub fn get_key_at_default(&self, bucket_time: BucketTime, key: &str) -> (r: Result<Value>)
        requires
            self.wf(),
        ensures
            !self.has(DEFAULT_SEGMENT@) ==> (r matches Err(TsDbError::SegmentNotFound(n)) && n@ == DEFAULT_SEGMENT@),
            self.has(DEFAULT_SEGMENT@) ==> {
                let seg = self.seg(DEFAULT_SEGMENT@);
                &&& !seg.keys().key_to_seq.contains_key(key@) ==> (r matches Err(TsDbError::KeyNotFound(k)) && k@ == key@)
                &&& seg.keys().key_to_seq.contains_key(key@) && seg.keys().key_to_seq[key@] >= crate::VALUES_PER_BLOCK
                    ==> (r matches Err(TsDbError::InvalidSeq(s)) && s == seg.keys().key_to_seq[key@])
                &&& seg.keys().key_to_seq.contains_key(key@) && seg.keys().key_to_seq[key@] < crate::VALUES_PER_BLOCK
                    ==> r == Ok::<Value, TsDbError>(seg.value_at(bucket_time, seg.keys().key_to_seq[key@] as int))
            },
    {
        self.get_key_at(DEFAULT_SEGMENT, bucket_time, key)
    }

    /// `aggr_unique` of the default segment.
    pub fn aggr_unique_default(&self, from: BucketTime, to: BucketTime) -> (r: Result<Vec<Value>>)
        requires
            self.wf(),
        ensures
            !self.has(DEFAULT_SEGMENT@) ==> (r matches Err(TsDbError::SegmentNotFound(n)) && n@ == DEFAULT_SEGMENT@),
            self.has(DEFAULT_SEGMENT@) ==> (r matches Ok(v) && aggregated(self.seg(DEFAULT_SEGMENT@), from, to, false, v@)),
    {
        self.aggr_unique(DEFAULT_SEGMENT, from, to)
    }

    /// `aggr_sum` of the default segment.
    pub fn aggr_sum_default(&self, from: BucketTime, to: BucketTime) -> (r: Result<Vec<Value>>)
        requires
            self.wf(),
        ensures
            !self.has(DEFAULT_SEGMENT@) ==> (r matches Err(TsDbError::SegmentNotFound(n)) && n@ == DEFAULT_SEGMENT@),
            self.has(DEFAULT_SEGMENT@) ==> (r matches Ok(v) && aggregated(self.seg(DEFAULT_SEGMENT@), from, to, true, v@)),
    {
        self.aggr_sum(DEFAULT_SEGMENT, from, to)
    }
}

} // verus!

verus! {

impl TsDb {
    /// Storing into one segment leaves every other segment as it was.
    pub proof fn lemma_put_keeps_other_segments(
        &self,
        later: &Self,
        name: Seq<char>,
        timestamp: u64,
        key: Seq<char>,
        value: Value,
        accumulate: bool,
        r: Result<()>,
        other: Seq<char>,
    )
        requires
            self.wf(),
            self.puts(later, name, timestamp, key, value, accumulate, r),
            self.has(other),
            other != name,
        ensures
            later.has(other),
            later.seg(other) == self.seg(other),
    {
        self.lemma_seg(other);
        let p = self.position(other);
        if self.has(name) {
            self.lemma_seg(name);
            assert(p != self.position(name));
            assert(later.segs()[p] == self.segs()[p]);
        } else if later.segs().len() == self.segs().len() + 1 && later.segs().take(self.segs().len() as int) == self.segs() {
            assert(later.segs()[p] == later.segs().take(self.segs().len() as int)[p]);
        }
        assert(later.segs()[p].name_view() == other);
        later.lemma_seg(other);
    }
}

/// Combining the aggregate of a single segment gives that aggregate back: its sums, and its
/// unique flags (which are 0 or 1).
pub proof fn lemma_combined_single(v: Seq<Value>, i: int)
    requires
        0 <= i < v.len(),
    ensures
        combined(seq![v], true, i) == v[i],
        combined(seq![v], false, i) == if v[i] > 0 { 1u64 } else { 0u64 },
{
    let rs = seq![v];
    assert(rs.drop_last() =~= Seq::<Seq<Value>>::empty());
    assert(rs.last() == v);
    assert(combined(rs.drop_last(), true, i) == 0);
    assert(combined(rs.drop_last(), false, i) == 0);
}

/// The value at position `i` of each aggregate that reaches it, added up: 0 for one that does not.
pub open spec fn column_sum(rs: Seq<Seq<Value>>, i: int) -> int
    decreases rs.len(),
{
    if rs.len() == 0 {
        0
    } else {
        column_sum(rs.drop_last(), i) + if 0 <= i < rs.last().len() {
            rs.last()[i] as int
        } else {
            0
        }
    }
}

/// Combining sums adds up every segment: position `i` of the combined sums is the sum, wrapped
/// around at `u64::MAX`, of position `i` of every segment's sums that reaches it.
pub proof fn lemma_combined_sum(rs: Seq<Seq<Value>>, i: int)
    requires
        0 <= i,
    ensures
        combined(rs, true, i) == wrap(column_sum(rs, i)),
    decreases rs.len(),
{
    if rs.len() == 0 {
        vstd::arithmetic::div_mod::lemma_small_mod(0, 0x1_0000_0000_0000_0000);
    } else {
        lemma_combined_sum(rs.drop_last(), i);
        lemma_column_sum_nonneg(rs.drop_last(), i);
        let last = rs.last();
        if i < last.len() {
            lemma_wrap_step(column_sum(rs.drop_last(), i), last[i]);
        }
    }
}

proof fn lemma_column_sum_nonneg(rs: Seq<Seq<Value>>, i: int)
    ensures
        column_sum(rs, i) >= 0,
    decreases rs.len(),
{
    if rs.len() > 0 {
        lemma_column_sum_nonneg(rs.drop_last(), i);
    }
}

/// Combining one more segment's sums adds its value at each position it reaches.
pub proof fn lemma_combined_sum_push(rs: Seq<Seq<Value>>, v: Seq<Value>, i: int)
    requires
        0 <= i < v.len(),
    ensures
        combined(rs.push(v), true, i) == wrapping_sum(combined(rs, true, i), v[i]),
{
    lemma_combined_sum(rs, i);
    lemma_combined_sum(rs.push(v), i);
    assert(rs.push(v).drop_last() =~= rs);
    lemma_column_sum_nonneg(rs, i);
    lemma_wrap_step(column_sum(rs, i), v[i]);
}

/// Combining unique flags is an OR over every segment: position `i` is 1 exactly when some
/// segment's flags reach `i` and are positive there, and 0 otherwise.
pub proof fn lemma_combined_unique(rs: Seq<Seq<Value>>, i: int)
    requires
        0 <= i,
    ensures
        combined(rs, false, i) == if exists|j: int| 0 <= j < rs.len() && i < rs[j].len() && #[trigger] rs[j][i] > 0 {
            1u64
        } else {
            0u64
        },
    decreases rs.len(),
{
    if rs.len() > 0 {
        let p = rs.drop_last();
        lemma_combined_unique(p, i);
        let n = rs.len() - 1;
        if exists|j: int| 0 <= j < p.len() && i < p[j].len() && #[trigger] p[j][i] > 0 {
            let j = choose|j: int| 0 <= j < p.len() && i < p[j].len() && #[trigger] p[j][i] > 0;
            assert(rs[j] == p[j]);
            assert(rs[j][i] > 0);
        }
        if exists|j: int| 0 <= j < rs.len() && i < rs[j].len() && #[trigger] rs[j][i] > 0 {
            let j = choose|j: int| 0 <= j < rs.len() && i < rs[j].len() && #[trigger] rs[j][i] > 0;
            if j < n {
                assert(p[j] == rs[j]);
                assert(p[j][i] > 0);
            } else {
                assert(rs.last()[i] > 0);
            }
        }
    }
}

} // verus!
