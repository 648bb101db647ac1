use memmap2::MmapMut;
use tempfile::TempDir;
use tsdb::index::{index_key, IndexEntry, IndexManager};
use tsdb::keymap::{keymap_line, keymap_text_in_range, KeyMapManager};
use tsdb::segment::Segment;
use tsdb::storage::{data_file_path, VBlock, VFile, ValueBlockManager};
use tsdb::valueblock::{ValueBlock, BLOCK_BYTES};
use tsdb::valuefile::ValueFile;
use tsdb::{bucket_time_to_timestamp, timestamp_to_bucket_time, TsDb, TsDbError};

const BT: u64 = 1640995200;

fn base_dir() -> (TempDir, String) {
    let dir = TempDir::new().unwrap();
    let path = dir.path().to_string_lossy().to_string();
    (dir, path)
}

fn entry(file: &str, offset: usize, length: usize) -> IndexEntry {
    IndexEntry { file_path: file.to_string(), offset, length }
}

#[test]
fn bucket_time_of_every_second_in_a_bucket() {
    for t in BT..BT + 60 {
        assert_eq!(timestamp_to_bucket_time(t, 60), BT);
    }
    assert_eq!(timestamp_to_bucket_time(BT + 60, 60), BT + 60);
    assert_eq!(timestamp_to_bucket_time(BT - 1, 60), BT - 60);
    assert_eq!(timestamp_to_bucket_time(7, 5), 5);
    assert_eq!(timestamp_to_bucket_time(u64::MAX, 1), u64::MAX);
    assert_eq!(bucket_time_to_timestamp(BT), BT);
}

#[test]
fn keymap_line_format() {
    assert_eq!(keymap_line("alpha", 7), "alpha,7\n");
    assert_eq!(keymap_line("k", 0), "k,0\n");
    assert_eq!(keymap_line("big", u64::MAX), "big,18446744073709551615\n");
}

#[test]
fn keymap_lines_load_back() {
    let mut text = keymap_line("alpha", 7);
    text.push_str(&keymap_line("beta", 3));
    let mut km = KeyMapManager::from_contents("km.txt".to_string(), &text).unwrap();
    assert_eq!(km.len(), 2);
    assert_eq!(km.get_seq("alpha").unwrap(), 7);
    assert_eq!(km.get_seq("beta").unwrap(), 3);
    assert_eq!(km.get_key(7).unwrap(), "alpha");
    assert_eq!(km.next_seq(), 8);
    assert_eq!(km.get_or_create_seq("gamma").unwrap(), 8);
    assert_eq!(km.get_or_create_seq("alpha").unwrap(), 7);
    assert_eq!(km.len(), 3);
}

#[test]
fn keymap_load_trims_and_skips_blank_lines() {
    let km = KeyMapManager::from_contents("km.txt".to_string(), "\n  \n key , +5 \r\nother,2\n").unwrap();
    assert_eq!(km.len(), 2);
    assert_eq!(km.get_seq("key").unwrap(), 5);
    assert_eq!(km.get_seq("other").unwrap(), 2);
    assert_eq!(km.next_seq(), 6);
}

#[test]
fn keymap_load_rejects_line_without_two_fields() {
    match KeyMapManager::from_contents("km.txt".to_string(), "a,1\na,b,c\n") {
        Err(TsDbError::InvalidDataFormat(msg)) => assert_eq!(msg, "Invalid keymap line: a,b,c"),
        other => panic!("unexpected: {:?}", other.map(|k| k.len())),
    }
    match KeyMapManager::from_contents("km.txt".to_string(), "nocomma\n") {
        Err(TsDbError::InvalidDataFormat(msg)) => assert_eq!(msg, "Invalid keymap line: nocomma"),
        other => panic!("unexpected: {:?}", other.map(|k| k.len())),
    }
}

#[test]
fn keymap_load_rejects_bad_sequence_number() {
    match KeyMapManager::from_contents("km.txt".to_string(), "k, x\n") {
        Err(TsDbError::InvalidDataFormat(msg)) => assert_eq!(msg, "Invalid sequence number:  x"),
        other => panic!("unexpected: {:?}", other.map(|k| k.len())),
    }
    match KeyMapManager::from_contents("km.txt".to_string(), "k,-1\n") {
        Err(TsDbError::InvalidDataFormat(msg)) => assert_eq!(msg, "Invalid sequence number: -1"),
        other => panic!("unexpected: {:?}", other.map(|k| k.len())),
    }
}

#[test]
fn keymap_text_range_check() {
    assert!(keymap_text_in_range("k,5\n"));
    assert!(keymap_text_in_range(""));
    assert!(!keymap_text_in_range("k,18446744073709551615\n"));
    assert!(keymap_text_in_range("k,18446744073709551614\n"));
    assert!(keymap_text_in_range("bad line\nk,18446744073709551615\n"));
}

#[test]
fn keymap_lookup_errors() {
    let mut km = KeyMapManager::new("km.txt".to_string()).unwrap();
    assert!(km.is_empty());
    km.get_or_create_seq("a").unwrap();
    match km.get_seq("missing") {
        Err(TsDbError::KeyNotFound(k)) => assert_eq!(k, "missing"),
        other => panic!("unexpected: {:?}", other),
    }
    match km.get_key(5) {
        Err(TsDbError::InvalidSeq(s)) => assert_eq!(s, 5),
        other => panic!("unexpected: {:?}", other),
    }
    assert_eq!(km.get_all_keys(), vec!["a".to_string()]);
    assert!(km.flush().is_ok());
}

#[test]
fn index_key_is_decimal() {
    assert_eq!(index_key(BT), "1640995200");
    assert_eq!(index_key(0), "0");
}

#[test]
fn index_saved_entries_load_back_sorted() {
    let saved = vec![
        (index_key(BT + 60), entry("b.dat", 1024, 8)),
        (index_key(BT), entry("a.dat", 0, 8)),
        (index_key(BT + 120), entry("c.dat", 2048, 8)),
    ];
    let index = IndexManager::from_entries("index.json".to_string(), saved).unwrap();
    assert_eq!(index.len(), 3);
    assert_eq!(index.get_all_bucket_times(), vec![BT, BT + 60, BT + 120]);
    assert_eq!(index.get_entry(BT + 60).unwrap().file_path, "b.dat");
    assert_eq!(index.get_entry(BT + 120).unwrap().offset, 2048);
    let in_range = index.get_entries_in_range(BT + 1, BT + 120);
    assert_eq!(in_range.len(), 2);
    assert_eq!(in_range[0].0, BT + 60);
    assert_eq!(in_range[1].0, BT + 120);
}

#[test]
fn index_later_saved_key_wins() {
    let saved = vec![(index_key(BT), entry("a.dat", 0, 8)), ("+1640995200".to_string(), entry("z.dat", 8, 8))];
    let index = IndexManager::from_entries("index.json".to_string(), saved).unwrap();
    assert_eq!(index.len(), 1);
    assert_eq!(index.get_entry(BT).unwrap().file_path, "z.dat");
}

#[test]
fn index_rejects_key_that_is_no_bucket_time() {
    let saved = vec![(index_key(BT), entry("a.dat", 0, 8)), ("abc".to_string(), entry("b.dat", 0, 8))];
    match IndexManager::from_entries("index.json".to_string(), saved) {
        Err(TsDbError::InvalidDataFormat(msg)) => assert_eq!(msg, "Invalid bucket time in index: abc"),
        other => panic!("unexpected: {:?}", other.map(|i| i.len())),
    }
    let saved = vec![("18446744073709551616".to_string(), entry("a.dat", 0, 8))];
    assert!(matches!(
        IndexManager::from_entries("index.json".to_string(), saved),
        Err(TsDbError::InvalidDataFormat(_))
    ));
}

#[test]
fn index_set_replaces_and_remove_of_missing_is_ok() {
    let mut index = IndexManager::new("index.json".to_string()).unwrap();
    index.set_entry(BT, entry("a.dat", 0, 8)).unwrap();
    index.set_entry(BT, entry("b.dat", 16, 8)).unwrap();
    assert_eq!(index.len(), 1);
    assert_eq!(index.get_entry(BT).unwrap().file_path, "b.dat");
    index.remove_entry(BT + 60).unwrap();
    assert_eq!(index.len(), 1);
    assert!(index.get_entries_in_range(BT + 1, BT).is_empty());
}

#[test]
fn data_file_names() {
    assert_eq!(data_file_path("base", 1), "base/tsdata_0001.dat");
    assert_eq!(data_file_path("base", 42), "base/tsdata_0042.dat");
    assert_eq!(data_file_path("/d", 999), "/d/tsdata_0999.dat");
    assert_eq!(data_file_path("/d", 12345), "/d/tsdata_12345.dat");
}

#[test]
fn vblock_starts_zeroed_and_reports_full() {
    let mut block = VBlock::new().unwrap();
    assert_eq!(block.read_value(5).unwrap(), 0);
    assert_eq!(block.used_bytes(), 0);
    assert_eq!(block.available_bytes(), 1048576);
    block.write_value(131071, 9).unwrap();
    assert_eq!(block.read_value(131071).unwrap(), 9);
    assert_eq!(block.used_bytes(), 1048576);
    assert_eq!(block.available_bytes(), 0);
    assert!(matches!(block.write_value(131072, 1), Err(TsDbError::ValueBlockFull)));
    match block.read_value(131072) {
        Err(TsDbError::InvalidSeq(s)) => assert_eq!(s, 131072),
        other => panic!("unexpected: {:?}", other),
    }
    assert!(!block.has_space_for(131072));
    assert!(block.flush().is_ok());
}

#[test]
fn vfile_grows_blocks_and_refuses_past_limit() {
    let (_dir, base) = base_dir();
    let mut file = VFile::new(format!("{}/v.dat", base)).unwrap();
    assert_eq!(file.file_path(), format!("{}/v.dat", base));
    file.write_value(131072 + 5, 77).unwrap();
    assert_eq!(file.read_value(131072 + 5).unwrap(), 77);
    assert_eq!(file.read_value(5).unwrap(), 0);
    assert_eq!(file.total_size(), 6 * 8);
    match file.read_value(3 * 131072) {
        Err(TsDbError::InvalidSeq(s)) => assert_eq!(s, 3 * 131072),
        other => panic!("unexpected: {:?}", other),
    }
    assert!(matches!(file.write_value(268435456, 1), Err(TsDbError::FileSizeLimitExceeded)));
    assert!(!file.is_size_limit_exceeded());
}

#[test]
fn manager_places_positions_in_files() {
    let (_dir, base) = base_dir();
    let mut manager = ValueBlockManager::new(base).unwrap();
    assert_eq!(manager.file_count(), 1);
    manager.write_value(268435456 + 3, 11).unwrap();
    assert_eq!(manager.file_count(), 2);
    assert_eq!(manager.current_file_index(), 1);
    assert_eq!(manager.read_value(268435456 + 3).unwrap(), 11);
    assert_eq!(manager.read_value(3).unwrap(), 0);
    assert!(manager.flush().is_ok());
}

#[test]
fn segment_rounds_timestamps_to_buckets() {
    let (_dir, base) = base_dir();
    let mut segment = Segment::new("s".to_string(), base, 60).unwrap();
    segment.insert(BT + 30, "k", 5).unwrap();
    assert_eq!(segment.get_key_at(BT, "k").unwrap(), 5);
    segment.accumulate(BT + 59, "k", 2).unwrap();
    assert_eq!(segment.get_key_at(BT, "k").unwrap(), 7);
    assert_eq!(segment.get_key_at(BT + 60, "k").unwrap(), 0);
    assert_eq!(segment.name(), "s");
    assert_eq!(segment.bucket_interval(), 60);
    assert_eq!(segment.keymap().len(), 1);
    assert_eq!(segment.index().get_all_bucket_times(), vec![BT]);
}

#[test]
fn segment_unique_counts_a_stored_zero() {
    let (_dir, base) = base_dir();
    let mut segment = Segment::new("s".to_string(), base, 60).unwrap();
    segment.insert(BT, "zero", 0).unwrap();
    segment.insert(BT + 60, "other", 4).unwrap();
    assert_eq!(segment.aggr_unique(BT, BT).unwrap(), vec![1, 0]);
    assert_eq!(segment.aggr_unique(BT, BT + 60).unwrap(), vec![1, 1]);
    assert_eq!(segment.aggr_sum(BT, BT + 60).unwrap(), vec![0, 4]);
    assert_eq!(segment.get_all_at(BT + 60).unwrap(), vec![0, 4]);
    assert_eq!(segment.get_all_at(BT + 120).unwrap(), vec![0, 0]);
}

#[test]
fn segment_sums_wrap_around() {
    let (_dir, base) = base_dir();
    let mut segment = Segment::new("s".to_string(), base, 60).unwrap();
    segment.insert(BT, "k", u64::MAX).unwrap();
    segment.insert(BT + 60, "k", 2).unwrap();
    assert_eq!(segment.aggr_sum(BT, BT + 60).unwrap(), vec![1]);
}

#[test]
fn segment_keeps_buckets_apart() {
    let (_dir, base) = base_dir();
    let mut segment = Segment::new("s".to_string(), base, 60).unwrap();
    segment.insert(BT, "a", 1).unwrap();
    segment.insert(BT + 60, "a", 2).unwrap();
    segment.insert(BT, "b", 3).unwrap();
    assert_eq!(segment.get_key_at(BT, "a").unwrap(), 1);
    assert_eq!(segment.get_key_at(BT + 60, "a").unwrap(), 2);
    assert_eq!(segment.get_key_at(BT, "b").unwrap(), 3);
    let times = segment.index().get_all_bucket_times();
    assert_eq!(times, vec![BT, BT + 60]);
    let first = segment.index().get_entry(BT).unwrap().clone();
    let second = segment.index().get_entry(BT + 60).unwrap().clone();
    assert_ne!(first.offset, second.offset);
    assert_eq!(first.length, 8);
    assert_eq!(second.length, 8);
}

#[test]
fn segment_unknown_key_errors() {
    let (_dir, base) = base_dir();
    let segment = Segment::new("s".to_string(), base, 60).unwrap();
    match segment.get_key_at(BT, "nope") {
        Err(TsDbError::KeyNotFound(k)) => assert_eq!(k, "nope"),
        other => panic!("unexpected: {:?}", other),
    }
    assert!(segment.aggr_sum(BT, BT).unwrap().is_empty());
}

#[test]
fn segment_from_saved_files() {
    let (_dir, base) = base_dir();
    let saved = vec![(index_key(BT), entry(&data_file_path(&base, 1), 0, 1048576))];
    let mut segment = Segment::from_saved("s".to_string(), base, 60, "a,0\nb,1\n", saved, Vec::new()).unwrap();
    assert_eq!(segment.keymap_len(), 2);
    assert!(segment.index().has_entry(BT));
    assert_eq!(segment.get_key_at(BT, "b").unwrap(), 0);
    segment.insert(BT + 60, "c", 9).unwrap();
    assert_eq!(segment.get_key_at(BT + 60, "c").unwrap(), 9);
    assert_eq!(segment.keymap().get_seq("c").unwrap(), 2);
    let old = segment.index().get_entry(BT).unwrap().offset;
    let new = segment.index().get_entry(BT + 60).unwrap().offset;
    assert!(new >= old + 1048576);
}

#[test]
fn segment_from_saved_reports_bad_files() {
    let (_dir, base) = base_dir();
    assert!(matches!(
        Segment::from_saved("s".to_string(), base.clone(), 60, "a;0\n", Vec::new(), Vec::new()),
        Err(TsDbError::InvalidDataFormat(_))
    ));
    let saved = vec![("soon".to_string(), entry("x.dat", 0, 8))];
    match Segment::from_saved("s".to_string(), base, 60, "a,0\n", saved, Vec::new()) {
        Err(TsDbError::InvalidDataFormat(msg)) => assert_eq!(msg, "Invalid bucket time in index: soon"),
        Err(e) => panic!("unexpected: {:?}", e),
        Ok(_) => panic!("loaded a bad index"),
    }
}

#[test]
fn tsdb_missing_segment_errors() {
    let (_dir, base) = base_dir();
    let db = TsDb::new(base).unwrap();
    match db.aggr_sum("nope", BT, BT) {
        Err(TsDbError::SegmentNotFound(s)) => assert_eq!(s, "nope"),
        other => panic!("unexpected: {:?}", other),
    }
    assert!(matches!(db.get_all_at("nope", BT), Err(TsDbError::SegmentNotFound(_))));
    assert!(matches!(db.get_key_at_default(BT, "k"), Err(TsDbError::SegmentNotFound(_))));
    assert!(db.aggr_sum_parallel(BT, BT).unwrap().is_empty());
    assert_eq!(db.segment_count(), 0);
    assert!(db.flush().is_ok());
}

#[test]
fn tsdb_add_segment_once_per_name() {
    let (_dir, base) = base_dir();
    let mut db = TsDb::with_bucket_interval(base.clone(), 30).unwrap();
    assert_eq!(db.bucket_interval(), 30);
    assert_eq!(db.segment_path("s"), format!("{}/segment_s", base));
    let seg = Segment::new("s".to_string(), db.segment_path("s"), 30).unwrap();
    assert!(db.add_segment(seg));
    let again = Segment::new("s".to_string(), db.segment_path("s"), 30).unwrap();
    assert!(!db.add_segment(again));
    assert_eq!(db.segment_names(), vec!["s".to_string()]);
    assert!(db.segment("s").is_some());
    assert!(db.segment("t").is_none());
    db.insert("s", BT + 45, "k", 3).unwrap();
    assert_eq!(db.get_key_at("s", BT + 30, "k").unwrap(), 3);
    assert!(db.flush().is_ok());
}

#[test]
fn tsdb_segments_in_creation_order() {
    let (_dir, base) = base_dir();
    let mut db = TsDb::new(base).unwrap();
    db.insert("b", BT, "k", 1).unwrap();
    db.insert("a", BT, "k", 2).unwrap();
    db.insert_default(BT, "k", 3).unwrap();
    assert_eq!(db.segment_names(), vec!["b".to_string(), "a".to_string(), "default".to_string()]);
    assert_eq!(db.segment_count(), 3);
}

#[test]
fn tsdb_combine_by_position() {
    let results = vec![vec![1, 0, 3], vec![0, 0, 5, 7], vec![u64::MAX]];
    assert_eq!(TsDb::combine(&results, true), vec![0, 0, 8]);
    assert_eq!(TsDb::combine(&results, false), vec![1, 0, 1]);
    assert!(TsDb::combine(&Vec::new(), true).is_empty());
}

#[test]
fn tsdb_parallel_unique_over_segments() {
    let (_dir, base) = base_dir();
    let mut db = TsDb::new(base).unwrap();
    db.insert("x", BT, "a", 5).unwrap();
    db.insert("x", BT, "b", 0).unwrap();
    db.insert("y", BT, "a", 0).unwrap();
    db.accumulate("y", BT + 60, "b", 4).unwrap();
    assert_eq!(db.aggr_unique_parallel(BT, BT).unwrap(), vec![1, 1]);
    assert_eq!(db.aggr_sum_parallel(BT, BT + 60).unwrap(), vec![5, 4]);
    assert_eq!(db.aggr_unique("y", BT + 60, BT + 60).unwrap(), vec![0, 1]);
}

#[test]
fn valueblock_slice_view() {
    let mut buf = vec![0u8; 32];
    let mut vb = ValueBlock::new(&mut buf);
    vb.write(0, 1);
    vb.write(3, u64::MAX);
    assert_eq!(vb.as_slice(), vec![1, 0, 0, u64::MAX]);
    assert_eq!(buf[0], 1);
    assert_eq!(buf[24..32], [255u8; 8]);
}

#[test]
fn valuefile_blocks_and_bounds() {
    let (_dir, base) = base_dir();
    let mmap = MmapMut::map_anon(BLOCK_BYTES * 2).unwrap();
    let mut vf = ValueFile::from_mapping(format!("{}/f.dat", base), mmap);
    {
        let mut block = vf.get_block(1).unwrap();
        block.write(2, 55);
    }
    assert_eq!(vf.read_value(1, 2), Some(55));
    assert!(vf.get_block(2).is_none());
    assert_eq!(vf.read_value(2, 0), None);
    assert_eq!(vf.read_value(1, BLOCK_BYTES / 8 - 1), Some(0));
    vf.write_value(0, 7, 8).unwrap();
    assert_eq!(vf.get_block(0).unwrap().read(7), 8);
    vf.flush_after(0).unwrap();
    vf.flush_after(5).unwrap();
    assert_eq!(vf.read_value(0, 7), Some(8));
}

#[test]
fn index_saved_entries_read_back() {
    let mut index = IndexManager::new("index.json".to_string()).unwrap();
    index.set_entry(BT + 60, entry("b.dat", 8, 16)).unwrap();
    index.set_entry(BT, entry("a.dat", 0, 8)).unwrap();
    let saved = index.saved_entries();
    assert_eq!(saved.len(), 2);
    assert_eq!(saved[0].0, "1640995200");
    assert_eq!(saved[1].0, "1640995260");
    assert_eq!(saved[1].1.file_path, "b.dat");
    let back = IndexManager::from_entries("index.json".to_string(), saved).unwrap();
    assert_eq!(back.get_all_bucket_times(), index.get_all_bucket_times());
    assert_eq!(back.get_entry(BT + 60).unwrap().length, 16);
    assert_eq!(back.get_entry(BT).unwrap().file_path, "a.dat");
}

#[test]
fn tsdb_parallel_over_one_segment_is_that_segment() {
    let (_dir, base) = base_dir();
    let mut db = TsDb::new(base).unwrap();
    db.insert("only", BT, "a", 5).unwrap();
    db.insert("only", BT + 60, "a", 6).unwrap();
    db.insert("only", BT + 60, "b", 0).unwrap();
    assert_eq!(db.aggr_sum_parallel(BT, BT + 60).unwrap(), db.aggr_sum("only", BT, BT + 60).unwrap());
    assert_eq!(db.aggr_unique_parallel(BT, BT + 60).unwrap(), vec![1, 1]);
    assert_eq!(db.aggr_unique("only", BT, BT + 60).unwrap(), vec![1, 1]);
}

fn block_with(values: &[(usize, u64)]) -> MmapMut {
    let mut map = MmapMut::map_anon(BLOCK_BYTES).unwrap();
    for &(i, v) in values {
        map[i * 8..i * 8 + 8].copy_from_slice(&v.to_le_bytes());
    }
    map
}

#[test]
fn segment_from_saved_reads_region_blocks() {
    let (_dir, base) = base_dir();
    let saved = vec![
        (index_key(BT), entry(&data_file_path(&base, 1), 0, 16)),
        (index_key(BT + 60), entry(&data_file_path(&base, 1), 1048576, 16)),
    ];
    let regions = vec![(0, block_with(&[(0, 123), (1, 7)])), (1, block_with(&[(1, 99)]))];
    let mut segment = Segment::from_saved("s".to_string(), base, 60, "key1,0\nkey2,1\n", saved, regions).unwrap();
    assert_eq!(segment.get_key_at(BT, "key1").unwrap(), 123);
    assert_eq!(segment.get_key_at(BT, "key2").unwrap(), 7);
    assert_eq!(segment.get_key_at(BT + 60, "key1").unwrap(), 0);
    assert_eq!(segment.get_key_at(BT + 60, "key2").unwrap(), 99);
    assert_eq!(segment.aggr_sum(BT, BT + 60).unwrap(), vec![123, 106]);
    segment.insert(BT + 120, "key1", 5).unwrap();
    let offset = segment.index().get_entry(BT + 120).unwrap().offset;
    assert!(offset >= 2 * 1048576);
    assert_eq!(segment.get_key_at(BT + 120, "key1").unwrap(), 5);
}

#[test]
fn segment_from_saved_refuses_a_short_block() {
    let (_dir, base) = base_dir();
    let regions = vec![(0, MmapMut::map_anon(100).unwrap())];
    assert!(matches!(
        Segment::from_saved("s".to_string(), base, 60, "", Vec::new(), regions),
        Err(TsDbError::Storage(_))
    ));
}

#[test]
fn segment_back_region_keeps_values() {
    let (_dir, base) = base_dir();
    let mut segment = Segment::new("s".to_string(), base, 60).unwrap();
    segment.insert(BT, "key1", 123).unwrap();
    segment.insert(BT + 60, "key1", 4).unwrap();
    segment.back_region(1, MmapMut::map_anon(BLOCK_BYTES).unwrap()).unwrap();
    segment.back_region(0, MmapMut::map_anon(BLOCK_BYTES).unwrap()).unwrap();
    assert_eq!(segment.get_key_at(BT, "key1").unwrap(), 123);
    assert_eq!(segment.get_key_at(BT + 60, "key1").unwrap(), 4);
    segment.accumulate(BT, "key1", 1).unwrap();
    assert_eq!(segment.get_key_at(BT, "key1").unwrap(), 124);
    assert!(matches!(segment.back_region(0, MmapMut::map_anon(8).unwrap()), Err(TsDbError::Storage(_))));
    assert!(segment.flush().is_ok());
}

#[test]
fn tsdb_back_region_of_missing_segment() {
    let (_dir, base) = base_dir();
    let mut db = TsDb::new(base).unwrap();
    match db.back_region("nope", 0, MmapMut::map_anon(BLOCK_BYTES).unwrap()) {
        Err(TsDbError::SegmentNotFound(s)) => assert_eq!(s, "nope"),
        other => panic!("unexpected: {:?}", other),
    }
    db.insert("s", BT, "k", 9).unwrap();
    db.back_region("s", 0, MmapMut::map_anon(BLOCK_BYTES).unwrap()).unwrap();
    assert_eq!(db.get_key_at("s", BT, "k").unwrap(), 9);
}

#[test]
fn vblock_from_mapping_reads_its_bytes() {
    let block = VBlock::from_mapping(block_with(&[(3, 42)])).unwrap();
    assert_eq!(block.read_value(3).unwrap(), 42);
    assert_eq!(block.read_value(4).unwrap(), 0);
    assert!(matches!(VBlock::from_mapping(MmapMut::map_anon(16).unwrap()), Err(TsDbError::Storage(_))));
}

#[test]
fn keymap_built_then_reloaded_is_the_same() {
    let mut km = KeyMapManager::new("km.txt".to_string()).unwrap();
    let mut text = String::new();
    for key in ["b", "a", "b", "c", "a"] {
        let known = km.get_seq(key).is_ok();
        let seq = km.get_or_create_seq(key).unwrap();
        if !known {
            text.push_str(&keymap_line(key, seq));
        }
    }
    let back = KeyMapManager::from_contents("km.txt".to_string(), &text).unwrap();
    assert_eq!(back.len(), km.len());
    for key in ["a", "b", "c"] {
        assert_eq!(back.get_seq(key).unwrap(), km.get_seq(key).unwrap());
    }
    for seq in 0..3 {
        assert_eq!(back.get_key(seq).unwrap(), km.get_key(seq).unwrap());
    }
    assert_eq!(back.next_seq(), 3);
}

#[test]
fn index_order_of_saved_entries_does_not_matter() {
    let forward = vec![(index_key(BT), entry("a.dat", 0, 8)), (index_key(BT + 60), entry("b.dat", 8, 8))];
    let backward = vec![(index_key(BT + 60), entry("b.dat", 8, 8)), (index_key(BT), entry("a.dat", 0, 8))];
    let x = IndexManager::from_entries("i.json".to_string(), forward).unwrap();
    let y = IndexManager::from_entries("i.json".to_string(), backward).unwrap();
    assert_eq!(x.get_all_bucket_times(), y.get_all_bucket_times());
    assert_eq!(x.get_entry(BT).unwrap().file_path, y.get_entry(BT).unwrap().file_path);
    assert_eq!(x.get_entry(BT + 60).unwrap().offset, y.get_entry(BT + 60).unwrap().offset);
}

#[test]
fn accumulate_into_new_key_of_existing_bucket_starts_at_zero() {
    let (_dir, base) = base_dir();
    let mut segment = Segment::new("s".to_string(), base, 60).unwrap();
    segment.insert(BT, "a", 10).unwrap();
    segment.accumulate(BT, "b", 3).unwrap();
    assert_eq!(segment.get_key_at(BT, "b").unwrap(), 3);
    assert_eq!(segment.get_key_at(BT, "a").unwrap(), 10);
}

#[test]
fn blank_text_is_only_whitespace() {
    assert!(tsdb::text::is_blank(""));
    assert!(tsdb::text::is_blank(" \n\t\r\n"));
    assert!(!tsdb::text::is_blank(" {} "));
}

#[test]
fn segment_sums_each_key_over_buckets() {
    let (_dir, base) = base_dir();
    let mut segment = Segment::new("multi".to_string(), base, 60).unwrap();
    for i in 0..4u64 {
        for (j, key) in ["key1", "key2", "key3"].iter().enumerate() {
            segment.insert(BT + 60 * i, key, 100 * i + j as u64).unwrap();
        }
    }
    assert_eq!(segment.aggr_sum(BT, BT + 180).unwrap(), vec![600, 604, 608]);
    assert_eq!(segment.aggr_unique(BT + 1, BT + 59).unwrap(), vec![0, 0, 0]);
    assert_eq!(segment.aggr_sum(BT + 180, BT).unwrap(), vec![0, 0, 0]);
}
