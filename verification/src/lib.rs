//! A local time series database: values keyed by segment, bucket time and key.
use vstd::prelude::*;

pub mod error;
mod mapped;
pub mod text;
pub mod keymap;
pub mod index;
pub mod storage;
pub mod segment;
pub mod tsdb;
pub mod valueblock;
pub mod valuefile;

pub use error::{Result, TsDbError};
pub use tsdb::TsDb;
pub use keymap::KeyMapManager;
pub use index::IndexManager;
pub use storage::{VBlock, VFile, ValueBlockManager};
pub use segment::Segment;

verus! {

/// A bucket time: the first second of the bucket that holds a timestamp.
pub type BucketTime = u64;

/// The value type of the time series.
pub type Value = u64;

/// Default bucket interval in seconds.
pub const DEFAULT_BUCKET_INTERVAL: u64 = 60;

/// The bucket time of `timestamp` for buckets of `bucket_interval` seconds.
pub open spec fn spec_bucket_time(timestamp: u64, bucket_interval: u64) -> int {
    (timestamp / bucket_interval) * bucket_interval
}

/// Converts a timestamp to the bucket time of the bucket that holds it.
pub fn timestamp_to_bucket_time(timestamp: u64, bucket_interval: u64) -> (bucket_time: BucketTime)
    requires
        bucket_interval > 0,
    ensures
        bucket_time == spec_bucket_time(timestamp, bucket_interval),
        bucket_time <= timestamp,
        timestamp - bucket_time < bucket_interval,
        bucket_time % bucket_interval == 0,
{
    let q = timestamp / bucket_interval;
    proof {
        vstd::arithmetic::div_mod::lemma_fundamental_div_mod(timestamp as int, bucket_interval as int);
        vstd::arithmetic::div_mod::lemma_mod_multiples_basic(q as int, bucket_interval as int);
        vstd::arithmetic::mul::lemma_mul_is_commutative(q as int, bucket_interval as int);
    }
    q * bucket_interval
}

} // verus!

verus! {

/// The size of a value block in bytes (1 MiB).
pub const VBLOCK_SIZE: usize = 1048576;

/// The size limit of a value file in bytes (2 GiB).
pub const VFILE_SIZE_LIMIT: usize = 2147483648;

/// The number of values that a value block holds.
pub const VALUES_PER_BLOCK: usize = 131072;

/// The number of value blocks that a value file holds.
pub const BLOCKS_PER_FILE: usize = 2048;

/// The number of values that a value file holds.
pub const VALUES_PER_FILE: usize = 268435456;

/// The size of a value in bytes.
pub const VALUE_BYTES: usize = 8;

/// The name of the segment that the `_default` operations use.
pub const DEFAULT_SEGMENT: &'static str = "default";

/// Converts a bucket time back to a timestamp: the bucket's first second.
pub fn bucket_time_to_timestamp(bucket_time: BucketTime) -> (timestamp: u64)
    ensures
        timestamp == bucket_time,
{
    bucket_time
}

} // verus!

verus! {

/// Every timestamp of a bucket maps to the bucket's time; in particular a bucket time maps to itself.
pub proof fn lemma_bucket_time_of_bucket(timestamp: u64, t: u64, bucket_interval: u64)
    requires
        bucket_interval > 0,
        spec_bucket_time(timestamp, bucket_interval) <= t < spec_bucket_time(timestamp, bucket_interval) + bucket_interval,
    ensures
        spec_bucket_time(t, bucket_interval) == spec_bucket_time(timestamp, bucket_interval),
{
    let q = timestamp / bucket_interval;
    let r = t - q * bucket_interval;
    vstd::arithmetic::div_mod::lemma_fundamental_div_mod_converse(t as int, bucket_interval as int, q as int, r);
}

} // verus!
