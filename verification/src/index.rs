//! The index of a segment: where the values of each bucket time are stored.
use vstd::prelude::*;

use crate::error::{Result, TsDbError};
use crate::text::{chars_of, decimal, parse_u64, parse_u64_range, push_decimal};
use crate::BucketTime;

verus! {

/// Where the values of one bucket time are stored.
#[derive(Debug, Clone)]
pub struct IndexEntry {
    /// The data file that holds them.
    pub file_path: String,
    /// Their byte offset in the segment's storage.
    pub offset: usize,
    /// Their length in bytes.
    pub length: usize,
}

/// The bucket times of a sequence of entries, in order.
pub open spec fn times_of(s: Seq<(BucketTime, IndexEntry)>) -> Seq<BucketTime> {
    s.map_values(|e: (BucketTime, IndexEntry)| e.0)
}

/// Whether the bucket times of `s` strictly increase.
pub open spec fn strictly_sorted(s: Seq<BucketTime>) -> bool {
    forall|i: int, j: int| 0 <= i < j < s.len() ==> s[i] < s[j]
}

/// The map that a sequence of entries with distinct bucket times describes.
pub open spec fn entries_map(s: Seq<(BucketTime, IndexEntry)>) -> Map<BucketTime, IndexEntry> {
    Map::new(
        |t: BucketTime| exists|i: int| 0 <= i < s.len() && s[i].0 == t,
        |t: BucketTime| s[position_of(s, t)].1,
    )
}

/// A position of `t` in `s`, when it occurs there.
pub open spec fn position_of(s: Seq<(BucketTime, IndexEntry)>, t: BucketTime) -> int {
    choose|i: int| 0 <= i < s.len() && s[i].0 == t
}

/// Maps bucket times to the place of their values, ordered by bucket time.
pub struct IndexManager {
    entries: Vec<(BucketTime, IndexEntry)>,
    file_path: String,
}

impl View for IndexManager {
    type V = Map<BucketTime, IndexEntry>;

    closed spec fn view(&self) -> Map<BucketTime, IndexEntry> {
        entries_map(self.entries@)
    }
}

/// The key under which a bucket time is saved: its decimal writing.
pub fn index_key(bucket_time: BucketTime) -> (key: String)
    ensures
        key@ == decimal(bucket_time as nat),
{
    let mut key = String::new();
    push_decimal(&mut key, bucket_time);
    key
}

impl IndexManager {
    /// The invariant: the entries are ordered by strictly increasing bucket time.
    pub closed spec fn wf(&self) -> bool {
        strictly_sorted(times_of(self.entries@))
    }

    /// The bucket times of the index, in increasing order.
    pub closed spec fn times(&self) -> Seq<BucketTime> {
        times_of(self.entries@)
    }

    /// The path of the file that persists the index.
    pub closed spec fn path(&self) -> Seq<char> {
        self.file_path@
    }

    /// The bucket times list the index's keys, each once, in increasing order.
    pub proof fn lemma_times(&self)
        requires
            self.wf(),
        ensures
            strictly_sorted(self.times()),
            forall|t: BucketTime| self@.contains_key(t) <==> self.times().contains(t),
            self@.dom().finite(),
            self@.len() == self.times().len(),
    {
        let s = self.entries@;
        let ts = self.times();
        assert forall|t: BucketTime| self@.contains_key(t) <==> ts.contains(t) by {
            if self@.contains_key(t) {
                let i = choose|i: int| 0 <= i < s.len() && s[i].0 == t;
                assert(ts[i] == t);
            }
            if ts.contains(t) {
                let i = choose|i: int| 0 <= i < ts.len() && ts[i] == t;
                assert(s[i].0 == t);
            }
        }
        assert(self@.dom() =~= ts.to_set());
        assert(ts.no_duplicates()) by {
            assert forall|i: int, j: int| 0 <= i < ts.len() && 0 <= j < ts.len() && i != j implies ts[i]
                != ts[j] by {
                if i < j {
                    assert(ts[i] < ts[j]);
                } else {
                    assert(ts[j] < ts[i]);
                }
            }
        }
        ts.unique_seq_to_set();
    }

    proof fn lemma_lookup(&self, i: int)
        requires
            self.wf(),
            0 <= i < self.entries@.len(),
        ensures
            self@.contains_key(self.entries@[i].0),
            self@[self.entries@[i].0] == self.entries@[i].1,
    {
        let s = self.entries@;
        let t = s[i].0;
        assert(times_of(s)[i] == t);
        let j = position_of(s, t);
        assert(times_of(s)[j] == t);
        if j != i {
            if j < i {
                assert(times_of(s)[j] < times_of(s)[i]);
            } else {
                assert(times_of(s)[i] < times_of(s)[j]);
            }
        }
        assert(j == i);
        assert(self@.contains_key(t));
        assert(self@[t] == s[j].1);
    }

    /// An empty index persisted at `file_path`. Reading an existing file is `from_entries`.
    pub fn new(file_path: String) -> (r: Result<Self>)
        ensures
            r matches Ok(m) && m.wf() && m@ == Map::<BucketTime, IndexEntry>::empty() && m.path()
                == file_path@,
    {
        let m = IndexManager { entries: Vec::new(), file_path };
        assert(m@ =~= Map::<BucketTime, IndexEntry>::empty());
        Ok(m)
    }

    /// Finds `bucket_time`: `Ok` with its position, or `Err` with where it would go.
    fn find(&self, bucket_time: BucketTime) -> (r: core::result::Result<usize, usize>)
        requires
            self.wf(),
        ensures
            r matches Ok(i) ==> i < self.entries@.len() && self.entries@[i as int].0 == bucket_time,
            r matches Err(p) ==> p <= self.entries@.len() && (forall|j: int|
                0 <= j < p ==> self.entries@[j].0 < bucket_time) && (forall|j: int|
                p <= j < self.entries@.len() ==> self.entries@[j].0 > bucket_time),
    {
        let ghost ts = times_of(self.entries@);
        let mut lo: usize = 0;
        let mut hi: usize = self.entries.len();
        while lo < hi
            invariant
                lo <= hi <= self.entries@.len(),
                ts == times_of(self.entries@),
                strictly_sorted(ts),
                forall|j: int| 0 <= j < lo ==> self.entries@[j].0 < bucket_time,
                forall|j: int| hi <= j < self.entries@.len() ==> self.entries@[j].0 > bucket_time,
            decreases hi - lo,
        {
            let mid = lo + (hi - lo) / 2;
            let t = self.entries[mid].0;
            if t == bucket_time {
                return Ok(mid);
            } else if t < bucket_time {
                proof {
                    assert forall|j: int| 0 <= j <= mid implies self.entries@[j].0 < bucket_time by {
                        if j < mid {
                            assert(ts[j] < ts[mid as int]);
                        }
                    }
                }
                lo = mid + 1;
            } else {
                proof {
                    assert forall|j: int| mid <= j < self.entries@.len() implies self.entries@[j].0
                        > bucket_time by {
                        if j > mid {
                            assert(ts[mid as int] < ts[j]);
                        }
                    }
                }
                hi = mid;
            }
        }
        Err(lo)
    }

    /// The entry of `bucket_time`.
    pub fn get_entry(&self, bucket_time: BucketTime) -> (r: Option<&IndexEntry>)
        requires
            self.wf(),
        ensures
            self@.contains_key(bucket_time) ==> r == Some(&self@[bucket_time]),
            !self@.contains_key(bucket_time) ==> r is None,
    {
        match self.find(bucket_time) {
            Ok(i) => {
                proof {
                    self.lemma_lookup(i as int);
                }
                Some(&self.entries[i].1)
            },
            Err(_) => None,
        }
    }

    /// Whether the index holds `bucket_time`.
    pub fn has_entry(&self, bucket_time: BucketTime) -> (b: bool)
        requires
            self.wf(),
        ensures
            b == self@.contains_key(bucket_time),
    {
        match self.find(bucket_time) {
            Ok(i) => {
                proof {
                    self.lemma_lookup(i as int);
                }
                true
            },
            Err(_) => false,
        }
    }

    /// Records `entry` for `bucket_time`, replacing any entry it had. Writing the index file
    /// again (`saved_entries` gives what to write) is the caller's.
    pub fn set_entry(&mut self, bucket_time: BucketTime, entry: IndexEntry) -> (r: Result<()>)
        requires
            old(self).wf(),
        ensures
            r is Ok,
            final(self).wf(),
            final(self)@ == old(self)@.insert(bucket_time, entry),
            final(self).path() == old(self).path(),
    {
        let ghost e = entry;
        match self.find(bucket_time) {
            Ok(i) => {
                self.entries.set(i, (bucket_time, entry));
                proof {
                    let s0 = old(self).entries@;
                    let s = self.entries@;
                    assert(times_of(s) =~= times_of(s0));
                    assert forall|t: BucketTime| #[trigger] self@.contains_key(t) == old(self)@.insert(
                        bucket_time,
                        e,
                    ).contains_key(t) by {
                        if old(self)@.contains_key(t) {
                            let j = choose|j: int| 0 <= j < s0.len() && s0[j].0 == t;
                            assert(s[j].0 == t);
                        }
                        if self@.contains_key(t) {
                            let j = choose|j: int| 0 <= j < s.len() && s[j].0 == t;
                            assert(s0[j].0 == t);
                        }
                    }
                    assert forall|t: BucketTime| #[trigger] self@.contains_key(t) implies self@[t]
                        == old(self)@.insert(bucket_time, e)[t] by {
                        let j = choose|j: int| 0 <= j < s.len() && s[j].0 == t;
                        self.lemma_lookup(j);
                        if t != bucket_time {
                            assert(s0[j] == s[j]);
                            old(self).lemma_lookup(j);
                        } else {
                            self.lemma_lookup(i as int);
                        }
                    }
                    assert(self@ =~= old(self)@.insert(bucket_time, e));
                }
            },
            Err(p) => {
                self.entries.insert(p, (bucket_time, entry));
                proof {
                    let s0 = old(self).entries@;
                    let s = self.entries@;
                    assert(strictly_sorted(times_of(s))) by {
                        assert forall|a: int, b: int| 0 <= a < b < s.len() implies times_of(s)[a]
                            < times_of(s)[b] by {
                            let ta = times_of(s)[a];
                            let tb = times_of(s)[b];
                            if b < p {
                                assert(times_of(s0)[a] < times_of(s0)[b]);
                            } else if b == p {
                                assert(s0[a].0 < bucket_time);
                            } else if a < p {
                                assert(s0[a].0 < bucket_time);
                                assert(s0[b - 1].0 > bucket_time);
                            } else if a == p {
                                assert(s0[b - 1].0 > bucket_time);
                            } else {
                                assert(times_of(s0)[a - 1] < times_of(s0)[b - 1]);
                            }
                        }
                    }
                    assert forall|t: BucketTime| #[trigger] self@.contains_key(t) == old(self)@.insert(
                        bucket_time,
                        e,
                    ).contains_key(t) by {
                        if old(self)@.contains_key(t) {
                            let j = choose|j: int| 0 <= j < s0.len() && s0[j].0 == t;
                            if j < p {
                                assert(s[j].0 == t);
                            } else {
                                assert(s[j + 1].0 == t);
                            }
                        }
                        if t == bucket_time {
                            assert(s[p as int].0 == t);
                        }
                        if self@.contains_key(t) && t != bucket_time {
                            let j = choose|j: int| 0 <= j < s.len() && s[j].0 == t;
                            if j < p {
                                assert(s0[j].0 == t);
                            } else {
                                assert(s0[j - 1].0 == t);
                            }
                        }
                    }
                    assert forall|t: BucketTime| #[trigger] self@.contains_key(t) implies self@[t]
                        == old(self)@.insert(bucket_time, e)[t] by {
                        let j = choose|j: int| 0 <= j < s.len() && s[j].0 == t;
                        self.lemma_lookup(j);
                        if t != bucket_time {
                            if j < p {
                                assert(s0[j] == s[j]);
                                old(self).lemma_lookup(j);
                            } else {
                                assert(s0[j - 1] == s[j]);
                                old(self).lemma_lookup(j - 1);
                            }
                        } else {
                            self.lemma_lookup(p as int);
                        }
                    }
                    assert(self@ =~= old(self)@.insert(bucket_time, e));
                }
            },
        }
        Ok(())
    }

    /// Drops the entry of `bucket_time`, if there is one. Writing the index file again is the caller's.
    pub fn remove_entry(&mut self, bucket_time: BucketTime) -> (r: Result<()>)
        requires
            old(self).wf(),
        ensures
            r is Ok,
            final(self).wf(),
            final(self)@ == old(self)@.remove(bucket_time),
            final(self).path() == old(self).path(),
    {
        match self.find(bucket_time) {
            Ok(i) => {
                self.entries.remove(i);
                proof {
                    let s0 = old(self).entries@;
                    let s = self.entries@;
                    assert(strictly_sorted(times_of(s))) by {
                        assert forall|a: int, b: int| 0 <= a < b < s.len() implies times_of(s)[a]
                            < times_of(s)[b] by {
                            if b < i {
                                assert(times_of(s0)[a] < times_of(s0)[b]);
                            } else if a < i {
                                assert(times_of(s0)[a] < times_of(s0)[b + 1]);
                            } else {
                                assert(times_of(s0)[a + 1] < times_of(s0)[b + 1]);
                            }
                        }
                    }
                    assert forall|t: BucketTime| #[trigger] self@.contains_key(t) == old(
                        self,
                    )@.remove(bucket_time).contains_key(t) by {
                        if old(self)@.contains_key(t) && t != bucket_time {
                            let j = choose|j: int| 0 <= j < s0.len() && s0[j].0 == t;
                            if j < i {
                                assert(s[j].0 == t);
                            } else {
                                assert(j != i);
                                assert(s[j - 1].0 == t);
                            }
                        }
                        if self@.contains_key(t) {
                            let j = choose|j: int| 0 <= j < s.len() && s[j].0 == t;
                            if j < i {
                                assert(s0[j].0 == t);
                                assert(times_of(s0)[j] < times_of(s0)[i as int]);
                            } else {
                                assert(s0[j + 1].0 == t);
                                assert(times_of(s0)[i as int] < times_of(s0)[j + 1]);
                            }
                        }
                    }
                    assert forall|t: BucketTime| #[trigger] self@.contains_key(t) implies self@[t]
                        == old(self)@.remove(bucket_time)[t] by {
                        let j = choose|j: int| 0 <= j < s.len() && s[j].0 == t;
                        self.lemma_lookup(j);
                        if j < i {
                            assert(s0[j] == s[j]);
                            old(self).lemma_lookup(j);
                        } else {
                            assert(s0[j + 1] == s[j]);
                            old(self).lemma_lookup(j + 1);
                        }
                    }
                    assert(self@ =~= old(self)@.remove(bucket_time));
                }
            },
            Err(_) => {
                assert(!self@.contains_key(bucket_time));
                assert(self@ =~= old(self)@.remove(bucket_time));
            },
        }
        Ok(())
    }

    /// The number of bucket times.
    pub fn len(&self) -> (n: usize)
        requires
            self.wf(),
        ensures
            n == self@.len(),
    {
        proof {
            self.lemma_times();
        }
        self.entries.len()
    }

    /// Whether the index holds no bucket time.
    pub fn is_empty(&self) -> (b: bool)
        requires
            self.wf(),
        ensures
            b == (self@.len() == 0),
    {
        proof {
            self.lemma_times();
        }
        self.entries.len() == 0
    }

    /// Every bucket time of the index, in increasing order.
    pub fn get_all_bucket_times(&self) -> (ts: Vec<BucketTime>)
        requires
            self.wf(),
        ensures
            ts@ == self.times(),
            strictly_sorted(ts@),
            forall|t: BucketTime| self@.contains_key(t) <==> ts@.contains(t),
    {
        proof {
            self.lemma_times();
        }
        let mut ts: Vec<BucketTime> = Vec::new();
        let mut i: usize = 0;
        while i < self.entries.len()
            invariant
                i <= self.entries@.len(),
                ts@ == times_of(self.entries@).take(i as int),
            decreases self.entries@.len() - i,
        {
            ts.push(self.entries[i].0);
            assert(times_of(self.entries@).take(i + 1) =~= times_of(self.entries@).take(i as int).push(
                self.entries@[i as int].0,
            ));
            i = i + 1;
        }
        assert(times_of(self.entries@).take(i as int) =~= times_of(self.entries@));
        ts
    }

    /// The bucket times of the index from `from` to `to`, both included, in increasing order.
    pub closed spec fn times_in_range(&self, from: BucketTime, to: BucketTime) -> Seq<BucketTime> {
        self.times().filter(|t: BucketTime| from <= t && t <= to)
    }

    /// The entries whose bucket time lies from `from` to `to`, both included, by increasing
    /// bucket time.
    pub fn get_entries_in_range(&self, from: BucketTime, to: BucketTime) -> (r: Vec<(BucketTime, &IndexEntry)>)
        requires
            self.wf(),
        ensures
            r@.len() == self.times_in_range(from, to).len(),
            forall|k: int|
                0 <= k < r@.len() ==> (#[trigger] r@[k]).0 == self.times_in_range(from, to)[k] && *r@[k].1
                    == self@[r@[k].0],
            strictly_sorted(self.times_in_range(from, to)),
            forall|t: BucketTime| #[trigger]
                self.times_in_range(from, to).contains(t) <==> (self@.contains_key(t) && from <= t
                    && t <= to),
    {
        proof {
            self.lemma_times();
        }
        let ghost pred = |t: BucketTime| from <= t && t <= to;
        let ghost ts = self.times();
        let mut r: Vec<(BucketTime, &IndexEntry)> = Vec::new();
        let mut i: usize = 0;
        while i < self.entries.len()
            invariant
                i <= self.entries@.len(),
                self.wf(),
                ts == self.times(),
                pred == (|t: BucketTime| from <= t && t <= to),
                r@.len() == ts.take(i as int).filter(pred).len(),
                forall|k: int|
                    0 <= k < r@.len() ==> (#[trigger] r@[k]).0 == ts.take(i as int).filter(pred)[k]
                        && *r@[k].1 == self@[r@[k].0],
            decreases self.entries@.len() - i,
        {
            let t = self.entries[i].0;
            assert(ts.take(i + 1).drop_last() =~= ts.take(i as int));
            reveal_with_fuel(Seq::filter, 1);
            if from <= t && t <= to {
                proof {
                    self.lemma_lookup(i as int);
                }
                r.push((t, &self.entries[i].1));
            }
            i = i + 1;
        }
        assert(ts.take(i as int) =~= ts);
        proof {
            lemma_filter_sorted(ts, pred);
            let f = ts.filter(pred);
            assert forall|t: BucketTime| #[trigger] f.contains(t) <==> (self@.contains_key(t) && from <= t
                && t <= to) by {
                if f.contains(t) {
                    let k = choose|k: int| 0 <= k < f.len() && f[k] == t;
                    assert(ts.contains(f[k]));
                }
                if self@.contains_key(t) && from <= t && t <= to {
                    assert(ts.contains(t));
                    assert(pred(t));
                }
            }
            lemma_filter_sorted(ts, pred);
        }
        r
    }

    /// The index that saved entries describe, persisted at `file_path`: each key is read as a
    /// bucket time with `str::parse`, in order, a later entry replacing an earlier one of the same
    /// bucket time; the first key that is no bucket time is an error.
    pub fn from_entries(file_path: String, saved: Vec<(String, IndexEntry)>) -> (r: Result<Self>)
        ensures
            (forall|k: int| 0 <= k < saved@.len() ==> (#[trigger] parse_u64(saved@[k].0@)) is Some)
                ==> (r matches Ok(m) && m.wf() && m.path() == file_path@ && m@ == saved_map(saved@)),
            (exists|k: int| 0 <= k < saved@.len() && (#[trigger] parse_u64(saved@[k].0@)) is None)
                ==> (r matches Err(TsDbError::InvalidDataFormat(msg)) && msg@ == bad_key_message(
                saved@[first_bad_key(saved@)].0@)),
    {
        let mut m = match IndexManager::new(file_path) {
            Ok(m) => m,
            Err(e) => return Err(e),
        };
        let ghost s = saved@;
        for item in it: saved
            invariant
                it.seq() == s,
                m.wf(),
                m.path() == file_path@,
                forall|k: int| 0 <= k < it.index() ==> (#[trigger] parse_u64(s[k].0@)) is Some,
                m@ == saved_map(s.take(it.index() as int)),
        {
            let ghost i = it.index();
            let (key, entry) = item;
            let kc = chars_of(key.as_str());
            assert(kc@.subrange(0, kc@.len() as int) =~= kc@);
            match parse_u64_range(&kc, 0, kc.len()) {
                Some(t) => {
                    m.set_entry(t, entry);
                    assert(s.take(i + 1).drop_last() =~= s.take(i as int));
                },
                None => {
                    proof {
                        lemma_first_bad_key(s, i as int);
                    }
                    let mut msg = String::from_str("Invalid bucket time in index: ");
                    msg.append(key.as_str());
                    return Err(TsDbError::InvalidDataFormat(msg));
                },
            }
        }
        assert(s.take(s.len() as int) =~= s);
        Ok(m)
    }
}

/// The map that saved entries describe, when each key reads as a bucket time.
pub open spec fn saved_map(s: Seq<(String, IndexEntry)>) -> Map<BucketTime, IndexEntry>
    decreases s.len(),
{
    if s.len() == 0 {
        Map::empty()
    } else {
        saved_map(s.drop_last()).insert(parse_u64(s.last().0@).unwrap(), s.last().1)
    }
}

/// The position of the first saved key that does not read as a bucket time.
pub open spec fn first_bad_key(s: Seq<(String, IndexEntry)>) -> int {
    choose|k: int|
        0 <= k < s.len() && parse_u64(s[k].0@) is None && forall|j: int| 0 <= j < k ==> (#[trigger] parse_u64(s[j].0@)) is Some
}

/// The text of the error that a saved key which is no bucket time gives.
pub open spec fn bad_key_message(key: Seq<char>) -> Seq<char> {
    "Invalid bucket time in index: "@ + key
}

proof fn lemma_first_bad_key(s: Seq<(String, IndexEntry)>, i: int)
    requires
        0 <= i < s.len(),
        parse_u64(s[i].0@) is None,
        forall|k: int| 0 <= k < i ==> (#[trigger] parse_u64(s[k].0@)) is Some,
    ensures
        first_bad_key(s) == i,
{
    let k = first_bad_key(s);
    assert(0 <= k < s.len() && parse_u64(s[k].0@) is None && forall|j: int| 0 <= j < k ==> (#[trigger] parse_u64(s[j].0@)) is Some);
    if k < i {
        assert(parse_u64(s[k].0@) is Some);
    }
    if k > i {
        assert(parse_u64(s[i].0@) is Some);
    }
}

proof fn lemma_filter_sorted(s: Seq<BucketTime>, pred: spec_fn(BucketTime) -> bool)
    requires
        strictly_sorted(s),
    ensures
        strictly_sorted(s.filter(pred)),
        forall|t: BucketTime| s.filter(pred).contains(t) ==> s.contains(t) && pred(t),
    decreases s.len(),
{
    reveal_with_fuel(Seq::filter, 1);
    if s.len() > 0 {
        let p = s.drop_last();
        assert(strictly_sorted(p));
        lemma_filter_sorted(p, pred);
        let fp = p.filter(pred);
        assert forall|t: BucketTime| fp.contains(t) implies t < s.last() by {
            assert(p.contains(t));
            let k = choose|k: int| 0 <= k < p.len() && p[k] == t;
            assert(s[k] < s[s.len() - 1]);
        }
        let f = s.filter(pred);
        assert forall|t: BucketTime| f.contains(t) implies s.contains(t) && pred(t) by {
            if pred(s.last()) && t == s.last() {
            } else {
                assert(fp.contains(t));
                assert(p.contains(t));
                let k = choose|k: int| 0 <= k < p.len() && p[k] == t;
                assert(s[k] == t);
            }
        }
        if pred(s.last()) {
            assert(f == fp.push(s.last()));
            assert forall|a: int, b: int| 0 <= a < b < f.len() implies f[a] < f[b] by {
                if b == f.len() - 1 {
                    assert(fp.contains(f[a]));
                }
            }
        }
    }
}

} // verus!

verus! {

proof fn lemma_entries_map_unique(s: Seq<(BucketTime, IndexEntry)>, i: int)
    requires
        strictly_sorted(times_of(s)),
        0 <= i < s.len(),
    ensures
        entries_map(s).contains_key(s[i].0),
        entries_map(s)[s[i].0] == s[i].1,
{
    let t = s[i].0;
    assert(times_of(s)[i] == t);
    let j = position_of(s, t);
    assert(times_of(s)[j] == t);
    if j < i {
        assert(times_of(s)[j] < times_of(s)[i]);
    } else if j > i {
        assert(times_of(s)[i] < times_of(s)[j]);
    }
}

proof fn lemma_entries_map_push(s: Seq<(BucketTime, IndexEntry)>, x: (BucketTime, IndexEntry))
    requires
        strictly_sorted(times_of(s.push(x))),
    ensures
        entries_map(s.push(x)) == entries_map(s).insert(x.0, x.1),
{
    let sp = s.push(x);
    assert(strictly_sorted(times_of(s))) by {
        assert forall|a: int, b: int| 0 <= a < b < times_of(s).len() implies times_of(s)[a] < times_of(s)[b] by {
            assert(times_of(sp)[a] < times_of(sp)[b]);
        }
    }
    let m = entries_map(sp);
    let n = entries_map(s).insert(x.0, x.1);
    assert forall|t: BucketTime| #[trigger] m.contains_key(t) == n.contains_key(t) by {
        if m.contains_key(t) {
            let j = position_of(sp, t);
            if j < s.len() {
                assert(s[j].0 == t);
            }
        }
        if entries_map(s).contains_key(t) {
            let j = position_of(s, t);
            assert(sp[j].0 == t);
        }
        if t == x.0 {
            assert(sp[s.len() as int].0 == t);
        }
    }
    assert forall|t: BucketTime| #[trigger] m.contains_key(t) implies m[t] == n[t] by {
        let j = position_of(sp, t);
        lemma_entries_map_unique(sp, j);
        if j < s.len() {
            assert(sp[j] == s[j]);
            lemma_entries_map_unique(s, j);
            assert(times_of(sp)[j] < times_of(sp)[s.len() as int]);
        }
    }
    assert(m =~= n);
}

impl IndexManager {
    proof fn lemma_save_load_prefix(&self, saved: Seq<(String, IndexEntry)>, k: int)
        requires
            self.wf(),
            0 <= k <= saved.len() == self.times().len(),
            forall|i: int| 0 <= i < saved.len() ==> (#[trigger] saved[i]).0@ == decimal(self.times()[i] as nat) && saved[i].1
                == self@[self.times()[i]],
        ensures
            saved_map(saved.take(k)) == entries_map(self.entries@.take(k)),
        decreases k,
    {
        let s = self.entries@;
        if k == 0 {
            assert(saved.take(0) =~= Seq::<(String, IndexEntry)>::empty());
            assert(entries_map(s.take(0)) =~= Map::<BucketTime, IndexEntry>::empty());
        } else {
            let j = k - 1;
            self.lemma_save_load_prefix(saved, j);
            assert(saved.take(k).drop_last() =~= saved.take(j));
            crate::text::lemma_parse_decimal(self.times()[j]);
            assert(s.take(k) =~= s.take(j).push(s[j]));
            assert(strictly_sorted(times_of(s.take(k)))) by {
                assert forall|a: int, b: int| 0 <= a < b < k implies times_of(s.take(k))[a] < times_of(s.take(k))[b] by {
                    assert(times_of(s)[a] < times_of(s)[b]);
                }
            }
            lemma_entries_map_push(s.take(j), s[j]);
            self.lemma_lookup(j);
        }
    }

    /// Saving the index under the decimal writing of each bucket time, and reading the saved
    /// entries back, gives the same index.
    pub proof fn lemma_save_load(&self, saved: Seq<(String, IndexEntry)>)
        requires
            self.wf(),
            saved.len() == self.times().len(),
            forall|i: int| 0 <= i < saved.len() ==> (#[trigger] saved[i]).0@ == decimal(self.times()[i] as nat) && saved[i].1
                == self@[self.times()[i]],
        ensures
            forall|i: int| 0 <= i < saved.len() ==> (#[trigger] parse_u64(saved[i].0@)) is Some,
            saved_map(saved) == self@,
    {
        let s = self.entries@;
        assert forall|i: int| 0 <= i < saved.len() implies (#[trigger] parse_u64(saved[i].0@)) is Some by {
            crate::text::lemma_parse_decimal(self.times()[i]);
        }
        self.lemma_save_load_prefix(saved, saved.len() as int);
        let k = saved.len() as int;
        assert(saved.take(k) =~= saved);
        assert(s.take(k) =~= s);
    }
}

/// A copy of `e`.
fn copy_entry(e: &IndexEntry) -> (c: IndexEntry)
    ensures
        c == *e,
{
    IndexEntry { file_path: e.file_path.clone(), offset: e.offset, length: e.length }
}

impl IndexManager {
    /// What saving the index writes: each entry under the decimal writing of its bucket time, by
    /// increasing bucket time. Reading these back with `from_entries` gives the same index.
    pub fn saved_entries(&self) -> (saved: Vec<(String, IndexEntry)>)
        requires
            self.wf(),
        ensures
            saved@.len() == self.times().len(),
            forall|i: int| 0 <= i < saved@.len() ==> (#[trigger] saved@[i]).0@ == decimal(self.times()[i] as nat) && saved@[i].1
                == self@[self.times()[i]],
            saved_map(saved@) == self@,
    {
        let mut saved: Vec<(String, IndexEntry)> = Vec::new();
        let mut i: usize = 0;
        while i < self.entries.len()
            invariant
                self.wf(),
                i <= self.entries@.len(),
                saved@.len() == i,
                forall|k: int| 0 <= k < i ==> (#[trigger] saved@[k]).0@ == decimal(self.times()[k] as nat) && saved@[k].1
                    == self@[self.times()[k]],
            decreases self.entries@.len() - i,
        {
            let key = index_key(self.entries[i].0);
            let e = copy_entry(&self.entries[i].1);
            proof {
                self.lemma_lookup(i as int);
            }
            saved.push((key, e));
            i = i + 1;
        }
        proof {
            self.lemma_save_load(saved@);
        }
        saved
    }
}

} // verus!

verus! {

impl IndexManager {
    /// The bucket times from `from` to `to` are the index's times in that range, each once, in
    /// increasing order.
    pub proof fn lemma_times_in_range(&self, from: BucketTime, to: BucketTime)
        requires
            self.wf(),
        ensures
            strictly_sorted(self.times_in_range(from, to)),
            forall|t: BucketTime| #[trigger] self.times_in_range(from, to).contains(t) <==> (self@.contains_key(t) && from
                <= t && t <= to),
    {
        self.lemma_times();
        let pred = |t: BucketTime| from <= t && t <= to;
        lemma_filter_sorted(self.times(), pred);
        let f = self.times().filter(pred);
        assert forall|t: BucketTime| #[trigger] f.contains(t) <==> (self@.contains_key(t) && from <= t && t <= to) by {
            if self@.contains_key(t) && from <= t && t <= to {
                assert(self.times().contains(t));
                let i = choose|i: int| 0 <= i < self.times().len() && self.times()[i] == t;
                assert(pred(t));
                self.times().lemma_filter_contains(pred, i);
            }
            if f.contains(t) {
                assert(self.times().contains(t) && pred(t));
                assert(self@.contains_key(t));
            }
        }
    }
}

/// A strictly increasing sequence that holds exactly `t` is `[t]`.
pub proof fn lemma_sorted_single(s: Seq<BucketTime>, t: BucketTime)
    requires
        strictly_sorted(s),
        forall|x: BucketTime| #[trigger] s.contains(x) <==> x == t,
    ensures
        s == seq![t],
{
    assert(s.contains(t));
    let k = choose|k: int| 0 <= k < s.len() && s[k] == t;
    if s.len() > 1 {
        let other = if k == 0 { 1int } else { 0int };
        assert(s.contains(s[other]));
        assert(s[other] == t);
        if other < k {
            assert(s[other] < s[k]);
        } else {
            assert(s[k] < s[other]);
        }
    }
    assert(s =~= seq![t]);
}

/// Whether every saved key reads as a bucket time, and no two give the same one.
pub open spec fn distinct_times(s: Seq<(String, IndexEntry)>) -> bool {
    &&& forall|i: int| 0 <= i < s.len() ==> (#[trigger] parse_u64(s[i].0@)) is Some
    &&& forall|i: int, j: int| 0 <= i < j < s.len() ==> parse_u64(s[i].0@) != parse_u64(s[j].0@)
}

proof fn lemma_saved_map_holds(s: Seq<(String, IndexEntry)>)
    requires
        distinct_times(s),
    ensures
        forall|t: BucketTime| #[trigger] saved_map(s).contains_key(t) <==> exists|i: int| 0 <= i < s.len() && parse_u64(s[i].0@) == Some(t),
        forall|i: int| 0 <= i < s.len() ==> saved_map(s)[parse_u64(#[trigger] s[i].0@).unwrap()] == s[i].1,
    decreases s.len(),
{
    if s.len() > 0 {
        let p = s.drop_last();
        let n = s.len() - 1;
        assert forall|i: int| 0 <= i < p.len() implies (#[trigger] parse_u64(p[i].0@)) is Some by {
            assert(p[i] == s[i]);
        }
        assert forall|i: int, j: int| 0 <= i < j < p.len() implies parse_u64(p[i].0@) != parse_u64(p[j].0@) by {
            assert(p[i] == s[i] && p[j] == s[j]);
        }
        lemma_saved_map_holds(p);
        assert(parse_u64(s[n].0@) is Some);
        let tl = parse_u64(s.last().0@).unwrap();
        assert(saved_map(s) == saved_map(p).insert(tl, s.last().1));
        assert forall|t: BucketTime| #[trigger] saved_map(s).contains_key(t) <==> exists|i: int| 0 <= i < s.len() && parse_u64(s[i].0@) == Some(t) by {
            if saved_map(s).contains_key(t) && t != tl {
                assert(saved_map(p).contains_key(t));
                let i = choose|i: int| 0 <= i < p.len() && parse_u64(p[i].0@) == Some(t);
                assert(s[i] == p[i]);
            }
            if t == tl {
                assert(parse_u64(s[n].0@) == Some(t));
            }
            if exists|i: int| 0 <= i < s.len() && parse_u64(s[i].0@) == Some(t) {
                let i = choose|i: int| 0 <= i < s.len() && parse_u64(s[i].0@) == Some(t);
                if i < n {
                    assert(p[i] == s[i]);
                }
            }
        }
        assert forall|i: int| 0 <= i < s.len() implies saved_map(s)[parse_u64(#[trigger] s[i].0@).unwrap()] == s[i].1 by {
            if i < n {
                assert(p[i] == s[i]);
                assert(parse_u64(s[i].0@) != parse_u64(s[n].0@));
                assert(parse_u64(p[i].0@) is Some);
                assert(saved_map(p)[parse_u64(p[i].0@).unwrap()] == p[i].1);
            }
        }
    }
}

/// The index that saved entries describe does not depend on their order: two lists of the same
/// entries, in which no two keys give the same bucket time, describe the same index.
pub proof fn lemma_saved_order(a: Seq<(String, IndexEntry)>, b: Seq<(String, IndexEntry)>)
    requires
        distinct_times(a),
        distinct_times(b),
        forall|e: (String, IndexEntry)| a.contains(e) <==> b.contains(e),
    ensures
        saved_map(a) == saved_map(b),
{
    lemma_saved_map_holds(a);
    lemma_saved_map_holds(b);
    assert forall|t: BucketTime| #[trigger] saved_map(a).contains_key(t) implies saved_map(b).contains_key(t) && saved_map(b)[t]
        == saved_map(a)[t] by {
        let i = choose|i: int| 0 <= i < a.len() && parse_u64(a[i].0@) == Some(t);
        assert(a.contains(a[i]));
        assert(b.contains(a[i]));
        let j = choose|j: int| 0 <= j < b.len() && b[j] == a[i];
        assert(saved_map(a)[parse_u64(a[i].0@).unwrap()] == a[i].1);
        assert(saved_map(b)[parse_u64(b[j].0@).unwrap()] == b[j].1);
    }
    assert forall|t: BucketTime| #[trigger] saved_map(b).contains_key(t) implies saved_map(a).contains_key(t) by {
        let j = choose|j: int| 0 <= j < b.len() && parse_u64(b[j].0@) == Some(t);
        assert(b.contains(b[j]));
        assert(a.contains(b[j]));
        let i = choose|i: int| 0 <= i < a.len() && a[i] == b[j];
        assert(parse_u64(a[i].0@) == Some(t));
    }
    assert(saved_map(a) =~= saved_map(b));
}

} // verus!
