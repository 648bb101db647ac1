use memmap2::MmapMut;
use tempfile::{tempdir, NamedTempFile, TempDir};
use tsdb::index::{IndexEntry, IndexManager};
use tsdb::keymap::KeyMapManager;
use tsdb::segment::Segment;
use tsdb::storage::{VBlock, VFile, ValueBlockManager};
use tsdb::valueblock::{ValueBlock, BLOCK_BYTES};
use tsdb::valuefile::ValueFile;
use tsdb::{timestamp_to_bucket_time, TsDb};

#[test]
fn test_timestamp_conversion() {
    let timestamp = 1640995200;
    let bucket_time = timestamp_to_bucket_time(timestamp, 60);
    assert_eq!(bucket_time, 1640995200);

    let bucket_time = timestamp_to_bucket_time(timestamp + 30, 60);
    assert_eq!(bucket_time, 1640995200);
}

#[test]
fn test_keymap_basic_operations() {
    let temp_file = NamedTempFile::new().unwrap();
    let file_path = temp_file.path().to_string_lossy().to_string();

    let mut keymap = KeyMapManager::new(file_path).unwrap();

    let seq1 = keymap.get_or_create_seq("key1").unwrap();
    let seq2 = keymap.get_or_create_seq("key2").unwrap();
    let seq1_again = keymap.get_or_create_seq("key1").unwrap();

    assert_eq!(seq1, 0);
    assert_eq!(seq2, 1);
    assert_eq!(seq1_again, seq1);

    assert_eq!(keymap.get_seq("key1").unwrap(), 0);
    assert_eq!(keymap.get_seq("key2").unwrap(), 1);
    assert!(keymap.get_seq("nonexistent").is_err());

    assert_eq!(keymap.get_key(0).unwrap(), "key1");
    assert_eq!(keymap.get_key(1).unwrap(), "key2");
    assert!(keymap.get_key(999).is_err());

    assert_eq!(keymap.len(), 2);
}

#[test]
fn test_index_basic_operations() {
    let temp_file = NamedTempFile::new().unwrap();
    let file_path = temp_file.path().to_string_lossy().to_string();

    let mut index = IndexManager::new(file_path).unwrap();

    assert!(index.is_empty());
    assert_eq!(index.len(), 0);

    let entry1 = IndexEntry { file_path: "data1.dat".to_string(), offset: 0, length: 1024 };
    let entry2 = IndexEntry { file_path: "data2.dat".to_string(), offset: 1024, length: 2048 };

    index.set_entry(1640995200, entry1.clone()).unwrap();
    index.set_entry(1640995260, entry2.clone()).unwrap();

    assert_eq!(index.len(), 2);
    assert!(index.has_entry(1640995200));
    assert!(index.has_entry(1640995260));
    assert!(!index.has_entry(1640995320));

    assert_eq!(index.get_entry(1640995200).unwrap().file_path, "data1.dat");
    assert_eq!(index.get_entry(1640995260).unwrap().file_path, "data2.dat");
    assert!(index.get_entry(1640995320).is_none());

    let range_entries = index.get_entries_in_range(1640995200, 1640995260);
    assert_eq!(range_entries.len(), 2);

    index.remove_entry(1640995200).unwrap();
    assert_eq!(index.len(), 1);
    assert!(!index.has_entry(1640995200));
    assert!(index.has_entry(1640995260));
}

fn temp_base() -> (TempDir, String) {
    let temp_dir = TempDir::new().unwrap();
    let base_path = temp_dir.path().to_string_lossy().to_string();
    (temp_dir, base_path)
}

#[test]
fn test_segment_basic_operations() {
    let (_dir, base_path) = temp_base();
    let mut segment = Segment::new("test".to_string(), base_path, 60).unwrap();

    segment.insert(1640995200, "key1", 123).unwrap();
    segment.insert(1640995200, "key2", 456).unwrap();

    let values = segment.get_all_at(1640995200).unwrap();
    assert_eq!(values[0], 123);
    assert_eq!(values[1], 456);

    assert_eq!(segment.get_key_at(1640995200, "key1").unwrap(), 123);
    assert_eq!(segment.get_key_at(1640995200, "key2").unwrap(), 456);

    segment.accumulate(1640995200, "key1", 100).unwrap();
    assert_eq!(segment.get_key_at(1640995200, "key1").unwrap(), 223);

    let unique = segment.aggr_unique(1640995200, 1640995200).unwrap();
    assert_eq!(unique[0], 1);
    assert_eq!(unique[1], 1);

    let sum = segment.aggr_sum(1640995200, 1640995200).unwrap();
    assert_eq!(sum[0], 223);
    assert_eq!(sum[1], 456);
}

#[test]
fn test_segment_large_key_count() {
    let (_dir, base_path) = temp_base();
    let mut segment = Segment::new("large_keys".to_string(), base_path, 60).unwrap();

    let num_keys = 10000;
    for i in 0..num_keys {
        let key = format!("key_{}", i);
        segment.insert(1640995200, &key, i as u64).unwrap();
    }

    for i in 0..num_keys {
        let key = format!("key_{}", i);
        assert_eq!(segment.get_key_at(1640995200, &key).unwrap(), i as u64);
    }

    assert_eq!(segment.keymap_len(), num_keys);

    let unique = segment.aggr_unique(1640995200, 1640995200).unwrap();
    assert_eq!(unique.len(), num_keys);

    let active_keys = unique.iter().filter(|&&x| x > 0).count();
    assert_eq!(active_keys, num_keys);
}

#[test]
fn test_segment_multiple_bucket_times() {
    let (_dir, base_path) = temp_base();
    let mut segment = Segment::new("multi_time".to_string(), base_path, 60).unwrap();

    let bucket_times = vec![1640995200, 1640995260, 1640995320, 1640995380];
    let keys = vec!["key1", "key2", "key3"];

    for (i, &bucket_time) in bucket_times.iter().enumerate() {
        for (j, &key) in keys.iter().enumerate() {
            let value = (i * 100) + j;
            segment.insert(bucket_time, key, value as u64).unwrap();
        }
    }

    for (i, &bucket_time) in bucket_times.iter().enumerate() {
        let _values = segment.get_all_at(bucket_time).unwrap();
        for (j, &key) in keys.iter().enumerate() {
            let expected_value = (i * 100) + j;
            assert_eq!(segment.get_key_at(bucket_time, key).unwrap(), expected_value as u64);
        }
    }

    let unique = segment.aggr_unique(1640995200, 1640995380).unwrap();
    let sum = segment.aggr_sum(1640995200, 1640995380).unwrap();

    assert_eq!(unique.iter().filter(|&&x| x > 0).count(), keys.len());

    let expected_sum: u64 = bucket_times
        .iter()
        .enumerate()
        .map(|(i, _)| keys.iter().enumerate().map(|(j, _)| (i * 100 + j) as u64).sum::<u64>())
        .sum();

    let actual_sum: u64 = sum.iter().sum();
    assert_eq!(actual_sum, expected_sum);
}

#[test]
fn test_segment_accumulate_overflow() {
    let (_dir, base_path) = temp_base();
    let mut segment = Segment::new("accumulate_test".to_string(), base_path, 60).unwrap();

    let large_value = u64::MAX / 2;

    segment.insert(1640995200, "key1", large_value).unwrap();
    segment.accumulate(1640995200, "key1", large_value).unwrap();

    let result = segment.get_key_at(1640995200, "key1").unwrap();
    assert_eq!(result, large_value.wrapping_add(large_value));

    for i in 0..10 {
        segment.accumulate(1640995200, "key2", i as u64).unwrap();
    }

    let expected_sum = (0..10).sum::<u64>();
    assert_eq!(segment.get_key_at(1640995200, "key2").unwrap(), expected_sum);
}

#[test]
fn test_segment_edge_cases() {
    let (_dir, base_path) = temp_base();
    let mut segment = Segment::new("edge_cases".to_string(), base_path, 60).unwrap();

    segment.insert(1640995200, "zero_key", 0).unwrap();
    assert_eq!(segment.get_key_at(1640995200, "zero_key").unwrap(), 0);

    segment.insert(1640995200, "max_key", u64::MAX).unwrap();
    assert_eq!(segment.get_key_at(1640995200, "max_key").unwrap(), u64::MAX);

    let long_key = "a".repeat(1000);
    segment.insert(1640995200, &long_key, 999).unwrap();
    assert_eq!(segment.get_key_at(1640995200, &long_key).unwrap(), 999);

    let special_key = "key@#$%^&*()_+-=[]{}|;':\",./<>?";
    segment.insert(1640995200, special_key, 888).unwrap();
    assert_eq!(segment.get_key_at(1640995200, special_key).unwrap(), 888);
}

#[test]
fn test_segment_concurrent_access_patterns() {
    let (_dir, base_path) = temp_base();
    let mut segment = Segment::new("concurrent".to_string(), base_path, 60).unwrap();

    let patterns = vec![(0, "key1", 100), (1000, "key2", 200), (10000, "key3", 300), (100000, "key4", 400)];

    for (_seq, key, value) in &patterns {
        segment.insert(1640995200, key, *value).unwrap();
    }

    for (_seq, key, expected_value) in &patterns {
        assert_eq!(segment.get_key_at(1640995200, key).unwrap(), *expected_value);
    }

    let unique = segment.aggr_unique(1640995200, 1640995200).unwrap();
    let active_keys = unique.iter().filter(|&&x| x > 0).count();
    assert_eq!(active_keys, patterns.len());
}

#[test]
fn test_segment_flush_operations() {
    let (_dir, base_path) = temp_base();
    let mut segment = Segment::new("flush_test".to_string(), base_path, 60).unwrap();

    segment.insert(1640995200, "key1", 123).unwrap();
    segment.insert(1640995200, "key2", 456).unwrap();
    segment.accumulate(1640995200, "key3", 789).unwrap();

    segment.flush().unwrap();

    assert_eq!(segment.get_key_at(1640995200, "key1").unwrap(), 123);
    assert_eq!(segment.get_key_at(1640995200, "key2").unwrap(), 456);
    assert_eq!(segment.get_key_at(1640995200, "key3").unwrap(), 789);

    let unique = segment.aggr_unique(1640995200, 1640995200).unwrap();
    let active_keys = unique.iter().filter(|&&x| x > 0).count();
    assert_eq!(active_keys, 3);
}

#[test]
fn test_vblock_basic_operations() {
    let mut block = VBlock::new().unwrap();

    block.write_value(0, 123).unwrap();
    block.write_value(1, 456).unwrap();
    block.write_value(100, 789).unwrap();

    assert_eq!(block.read_value(0).unwrap(), 123);
    assert_eq!(block.read_value(1).unwrap(), 456);
    assert_eq!(block.read_value(100).unwrap(), 789);

    assert!(block.has_space_for(0));
    assert!(block.has_space_for(100));

    assert!(block.read_value(999999).is_err());
}

#[test]
fn test_vfile_basic_operations() {
    let temp_dir = TempDir::new().unwrap();
    let file_path = temp_dir.path().join("test.dat").to_string_lossy().to_string();

    let mut file = VFile::new(file_path).unwrap();

    file.write_value(0, 123).unwrap();
    file.write_value(1, 456).unwrap();
    file.write_value(100000, 789).unwrap();

    assert_eq!(file.read_value(0).unwrap(), 123);
    assert_eq!(file.read_value(1).unwrap(), 456);
    assert_eq!(file.read_value(100000).unwrap(), 789);

    assert!(file.total_size() > 0);
    assert!(!file.is_size_limit_exceeded());
}

#[test]
fn test_value_block_manager() {
    let (_dir, base_path) = temp_base();

    let mut manager = ValueBlockManager::new(base_path).unwrap();

    manager.write_value(0, 123).unwrap();
    manager.write_value(1, 456).unwrap();
    manager.write_value(100000, 789).unwrap();

    assert_eq!(manager.read_value(0).unwrap(), 123);
    assert_eq!(manager.read_value(1).unwrap(), 456);
    assert_eq!(manager.read_value(100000).unwrap(), 789);

    assert_eq!(manager.file_count(), 1);
    assert_eq!(manager.current_file_index(), 0);
}

#[test]
fn test_tsdb_basic_operations() {
    let (_dir, base_path) = temp_base();
    let mut tsdb = TsDb::new(base_path).unwrap();

    tsdb.insert_default(1640995200, "key1", 123).unwrap();
    tsdb.insert_default(1640995200, "key2", 456).unwrap();

    let values = tsdb.get_all_at_default(1640995200).unwrap();
    assert_eq!(values[0], 123);
    assert_eq!(values[1], 456);

    assert_eq!(tsdb.get_key_at_default(1640995200, "key1").unwrap(), 123);
    assert_eq!(tsdb.get_key_at_default(1640995200, "key2").unwrap(), 456);

    tsdb.accumulate_default(1640995200, "key1", 100).unwrap();
    assert_eq!(tsdb.get_key_at_default(1640995200, "key1").unwrap(), 223);

    let unique = tsdb.aggr_unique_default(1640995200, 1640995200).unwrap();
    assert_eq!(unique[0], 1);
    assert_eq!(unique[1], 1);

    let sum = tsdb.aggr_sum_default(1640995200, 1640995200).unwrap();
    assert_eq!(sum[0], 223);
    assert_eq!(sum[1], 456);
}

#[test]
fn test_tsdb_multiple_segments() {
    let (_dir, base_path) = temp_base();
    let mut tsdb = TsDb::new(base_path).unwrap();

    tsdb.insert("segment1", 1640995200, "key1", 100).unwrap();
    tsdb.insert("segment2", 1640995200, "key1", 200).unwrap();

    assert_eq!(tsdb.get_key_at("segment1", 1640995200, "key1").unwrap(), 100);
    assert_eq!(tsdb.get_key_at("segment2", 1640995200, "key1").unwrap(), 200);

    let sum = tsdb.aggr_sum_parallel(1640995200, 1640995200).unwrap();
    assert_eq!(sum[0], 300);
}

#[test]
fn valuefile_write_and_read() {
    let dir = tempdir().unwrap();
    let path = dir.path().join("test.dat");
    let mmap = MmapMut::map_anon(BLOCK_BYTES * 2).unwrap();
    let mut vf = ValueFile::from_mapping(path.to_string_lossy().to_string(), mmap);
    vf.write_value(0, 0, 42).unwrap();
    vf.flush_if_idle().unwrap();
    let v = vf.read_value(0, 0).unwrap();
    assert_eq!(v, 42);
}

#[test]
fn valueblock_write_read() {
    let mut buf = vec![0u8; BLOCK_BYTES];
    {
        let mut vb = ValueBlock::new(&mut buf);
        vb.write(5, 99);
        assert_eq!(vb.read(5), 99);
    }
    let vb = ValueBlock::new(&mut buf);
    assert_eq!(vb.read(5), 99);
}

#[test]
fn valuefile_multiple_blocks() {
    let dir = tempdir().unwrap();
    let path = dir.path().join("multi.dat");
    let mmap = MmapMut::map_anon(BLOCK_BYTES * 2).unwrap();
    let mut vf = ValueFile::from_mapping(path.to_string_lossy().to_string(), mmap);
    vf.write_value(0, 10, 1).unwrap();
    vf.write_value(1, 20, 2).unwrap();
    vf.flush_if_idle().unwrap();
    assert_eq!(vf.read_value(0, 10).unwrap(), 1);
    assert_eq!(vf.read_value(1, 20).unwrap(), 2);
}
