use bitcask::active::ActiveFile;
use bitcask::cache::FileCache;
use bitcask::codec::{encode_header, encode_hint_entry, encode_record, read_u32_at, read_u64_at};
use bitcask::config::{BitCaskConfig, StorageConfig};
use bitcask::error::EngineError;
use bitcask::handle::{checked_value, BitCaskHandle};
use bitcask::keydir::{compare_bytes, Entry, Keydir};
use bitcask::layout::{
    parse_segment_name, partition_segment_names, segment_file_name, SegmentKind, SegmentPlan,
};
use bitcask::recovery::{decode_data_segment, decode_hint_segment, recover};

fn config(max: u64) -> BitCaskConfig {
    let mut c = BitCaskConfig::default();
    c.max_active_file_size = max;
    c
}

fn names(list: &[&str]) -> Vec<Vec<u8>> {
    list.iter().map(|n| n.as_bytes().to_vec()).collect()
}

fn read_at(segment: &[u8], e: &Entry) -> Vec<u8> {
    let start = e.value_pos as usize;
    segment[start..start + e.value_size].to_vec()
}

/// Drives one put against an in-memory set of segments, as the embedding does
/// against files: rotate when told to, append the record, then record the put.
fn put(h: &mut BitCaskHandle, segments: &mut Vec<(u64, Vec<u8>)>, key: &[u8], value: &[u8], ts: u64) {
    if h.should_rotate(key.len(), value.len()) {
        let sealed = h.rotate().unwrap();
        assert_ne!(sealed, h.active_file_id());
    }
    let id = h.active_file_id();
    if segments.last().map(|s| s.0) != Some(id) {
        segments.push((id, Vec::new()));
    }
    let rec = encode_record(ts, key, value);
    segments.last_mut().unwrap().1.extend_from_slice(&rec);
    h.record_put(key, value.len(), rec.len() as u64, ts).unwrap();
}

fn segment<'a>(segments: &'a [(u64, Vec<u8>)], id: u64) -> &'a [u8] {
    &segments.iter().find(|s| s.0 == id).unwrap().1
}

fn open_empty(max: u64) -> BitCaskHandle {
    let plan = SegmentPlan { hint_ids: vec![], data_ids: vec![] };
    BitCaskHandle::open_with_config(&config(max), &plan, &vec![], &vec![]).unwrap()
}

#[test]
fn header_is_little_endian() {
    let h = encode_header(0x0102030405060708, 3, 0x0a0b0c0d);
    assert_eq!(h, vec![8, 7, 6, 5, 4, 3, 2, 1, 3, 0, 0, 0, 0x0d, 0x0c, 0x0b, 0x0a]);
    assert_eq!(read_u64_at(&h, 0), 0x0102030405060708);
    assert_eq!(read_u32_at(&h, 8), 3);
    assert_eq!(read_u32_at(&h, 12), 0x0a0b0c0d);
}

#[test]
fn record_layout() {
    let r = encode_record(10, b"a", b"old");
    assert_eq!(r.len(), 16 + 1 + 3);
    assert_eq!(&r[0..8], &10u64.to_le_bytes());
    assert_eq!(&r[8..12], &1u32.to_le_bytes());
    assert_eq!(&r[12..16], &3u32.to_le_bytes());
    assert_eq!(&r[16..], b"aold");
}

#[test]
fn hint_entry_layout() {
    let r = encode_hint_entry(20, b"a", 3, 24);
    assert_eq!(r.len(), 24 + 1);
    assert_eq!(&r[0..8], &20u64.to_le_bytes());
    assert_eq!(&r[8..12], &1u32.to_le_bytes());
    assert_eq!(&r[12..16], &3u32.to_le_bytes());
    assert_eq!(&r[16..24], &24u64.to_le_bytes());
    assert_eq!(&r[24..], b"a");
}

#[test]
fn segment_names() {
    assert_eq!(parse_segment_name(b"00000003.data"), Some((3, SegmentKind::Data)));
    assert_eq!(parse_segment_name(b"00000003.hint"), Some((3, SegmentKind::Hint)));
    assert_eq!(parse_segment_name(b"42.log"), Some((42, SegmentKind::Data)));
    assert_eq!(
        parse_segment_name(b"18446744073709551615.data"),
        Some((u64::MAX, SegmentKind::Data))
    );
    assert_eq!(parse_segment_name(b"18446744073709551616.data"), None);
    assert_eq!(parse_segment_name(b"00000003"), None);
    assert_eq!(parse_segment_name(b"00000003.txt"), None);
    assert_eq!(parse_segment_name(b"abc.data"), None);
    assert_eq!(parse_segment_name(b".data"), None);
    assert_eq!(parse_segment_name(b"3a.data"), None);
    assert_eq!(parse_segment_name(b"3.data.bak"), None);
}

#[test]
fn partition_prefers_hints_and_sorts() {
    let plan = partition_segment_names(&names(&[
        "00000002.data",
        "00000003.hint",
        "notes.txt",
        "00000001.data",
        "00000003.data",
        "00000002.data",
    ]));
    assert_eq!(plan.hint_ids, vec![3]);
    assert_eq!(plan.data_ids, vec![1, 2]);
    assert_eq!(plan.next_segment_id(), Some(4));
}

#[test]
fn next_segment_id_cases() {
    let empty = SegmentPlan { hint_ids: vec![], data_ids: vec![] };
    assert_eq!(empty.next_segment_id(), Some(0));
    let zero = SegmentPlan { hint_ids: vec![], data_ids: vec![0] };
    assert_eq!(zero.next_segment_id(), Some(1));
    let mixed = SegmentPlan { hint_ids: vec![9], data_ids: vec![1, 4] };
    assert_eq!(mixed.next_segment_id(), Some(10));
    let full = SegmentPlan { hint_ids: vec![], data_ids: vec![u64::MAX] };
    assert_eq!(full.next_segment_id(), None);
}

#[test]
fn open_on_empty_directory() {
    let h = open_empty(100);
    assert_eq!(h.active_file_id(), 0);
    assert_eq!(h.get(b"k"), None);
}

#[test]
fn open_fails_when_ids_are_used_up() {
    let plan = SegmentPlan { hint_ids: vec![], data_ids: vec![u64::MAX - 1] };
    let r = BitCaskHandle::open_with_config(&config(100), &plan, &vec![], &vec![vec![]]);
    assert_eq!(r.err(), Some(EngineError::SegmentWrite));
}

#[test]
fn rotation_with_small_threshold() {
    let mut h = open_empty(100);
    let mut segments = Vec::new();
    for i in 0..20u64 {
        let key = format!("key_{i}").into_bytes();
        let value = vec![b'x'; 50];
        let before = h.active_file_id();
        let rotates = h.should_rotate(key.len(), value.len());
        put(&mut h, &mut segments, &key, &value, i + 1);
        if rotates {
            assert!(h.active_file_id() > before);
        }
    }
    assert!(segments.len() >= 2);
    for (id, bytes) in &segments {
        if *id != h.active_file_id() {
            assert!(bytes.len() < 100);
        }
    }
    for i in 0..20u64 {
        let key = format!("key_{i}").into_bytes();
        let e = h.get(&key).unwrap();
        assert_eq!(read_at(segment(&segments, e.file_id), &e), vec![b'x'; 50]);
    }
}

#[test]
fn last_writer_wins_live() {
    let mut h = open_empty(1 << 20);
    let mut segments = Vec::new();
    put(&mut h, &mut segments, b"k", b"v1", 1);
    put(&mut h, &mut segments, b"k", b"v2", 2);
    let e = h.get(b"k").unwrap();
    assert_eq!(read_at(segment(&segments, e.file_id), &e), b"v2".to_vec());
    assert_eq!(e.timestamp, 2);
}

#[test]
fn equal_timestamp_keeps_incumbent() {
    let mut kd = Keydir::new();
    kd.update(b"k", Entry::new(1, 20, 2, 5));
    kd.update(b"k", Entry::new(2, 30, 2, 5));
    assert_eq!(kd.get(b"k"), Some(Entry::new(1, 20, 2, 5)));
    kd.update(b"k", Entry::new(3, 40, 2, 4));
    assert_eq!(kd.get(b"k"), Some(Entry::new(1, 20, 2, 5)));
    kd.update(b"k", Entry::new(4, 50, 2, 6));
    assert_eq!(kd.get(b"k"), Some(Entry::new(4, 50, 2, 6)));
    assert_eq!(kd.len(), 1);
}

#[test]
fn persistence_across_reopen() {
    let mut h = open_empty(1 << 20);
    let mut segments = Vec::new();
    put(&mut h, &mut segments, b"k", b"v", 7);
    drop(h);
    let listing = names(&["00000000.data"]);
    let plan = partition_segment_names(&listing);
    let data: Vec<Vec<u8>> = plan.data_ids.iter().map(|id| segment(&segments, *id).to_vec()).collect();
    let h = BitCaskHandle::open_with_config(&config(1 << 20), &plan, &vec![], &data).unwrap();
    assert_eq!(h.active_file_id(), 1);
    let e = h.get(b"k").unwrap();
    assert_eq!(read_at(&data[0], &e), b"v".to_vec());
    assert_eq!(h.last_timestamp(), 7);
    assert_eq!(h.next_timestamp(3), Some(8));
    assert_eq!(h.next_timestamp(20), Some(20));
}

#[test]
fn same_millisecond_puts_keep_the_second() {
    let mut h = open_empty(1 << 20);
    let mut segments = Vec::new();
    let t1 = h.next_timestamp(1000).unwrap();
    assert_eq!(t1, 1000);
    put(&mut h, &mut segments, b"k", b"v1", t1);
    let t2 = h.next_timestamp(1000).unwrap();
    assert_eq!(t2, 1001);
    put(&mut h, &mut segments, b"k", b"v2", t2);
    let e = h.get(b"k").unwrap();
    assert_eq!(read_at(segment(&segments, e.file_id), &e), b"v2".to_vec());
    let t3 = h.next_timestamp(999).unwrap();
    assert_eq!(t3, 1002);
}

#[test]
fn timestamps_run_out() {
    let mut h = open_empty(1 << 20);
    let mut segments = Vec::new();
    put(&mut h, &mut segments, b"k", b"v", u64::MAX);
    assert_eq!(h.next_timestamp(5), None);
}

#[test]
fn hint_segment_preferred() {
    let data3 = encode_record(10, b"a", b"old");
    let hint3 = encode_hint_entry(20, b"a", 3, 24);
    let plan = partition_segment_names(&names(&["00000003.data", "00000003.hint"]));
    assert_eq!(plan.hint_ids, vec![3]);
    assert!(plan.data_ids.is_empty());
    let h = BitCaskHandle::open_with_config(&config(1 << 20), &plan, &vec![hint3], &vec![]).unwrap();
    let e = h.get(b"a").unwrap();
    assert_eq!(e, Entry::new(3, 24, 3, 20));
    assert_eq!(h.active_file_id(), 4);
    assert_eq!(decode_data_segment(3, &data3).get(b"a"), Some(Entry::new(3, 17, 3, 10)));
}

#[test]
fn recovery_merges_across_segments() {
    let seg1 = encode_record(5, b"a", b"five");
    let seg2 = encode_record(7, b"a", b"seven");
    let plan = partition_segment_names(&names(&["00000002.data", "00000001.data"]));
    assert_eq!(plan.data_ids, vec![1, 2]);
    let h = BitCaskHandle::open_with_config(&config(1 << 20), &plan, &vec![], &vec![seg1, seg2.clone()])
        .unwrap();
    let e = h.get(b"a").unwrap();
    assert_eq!(e.file_id, 2);
    assert_eq!(e.timestamp, 7);
    assert_eq!(read_at(&seg2, &e), b"seven".to_vec());
}

#[test]
fn older_data_does_not_override_newer() {
    let seg1 = encode_record(9, b"a", b"nine");
    let seg2 = encode_record(3, b"a", b"three");
    let k = recover(&vec![], &vec![], &vec![1, 2], &vec![seg1, seg2]);
    assert_eq!(k.get(b"a"), Some(Entry::new(1, 17, 4, 9)));
}

#[test]
fn torn_tail_is_ignored() {
    let mut seg = encode_record(1, b"a", b"one");
    seg.extend_from_slice(&encode_record(2, b"b", b"two"));
    let whole = seg.len();
    let third = encode_record(3, b"c", b"three");
    for cut in 0..third.len() {
        let mut torn = seg.clone();
        torn.extend_from_slice(&third[..cut]);
        let kd = decode_data_segment(0, &torn);
        assert_eq!(kd.len(), 2);
        assert_eq!(kd.get(b"c"), None);
        let a = kd.get(b"a").unwrap();
        let b = kd.get(b"b").unwrap();
        assert_eq!(read_at(&torn, &a), b"one".to_vec());
        assert_eq!(read_at(&torn, &b), b"two".to_vec());
        assert!(b.value_pos as usize + b.value_size == whole);
    }
}

#[test]
fn data_segment_keeps_newest_within_file() {
    let mut seg = encode_record(4, b"k", b"new");
    seg.extend_from_slice(&encode_record(2, b"k", b"older"));
    seg.extend_from_slice(&encode_record(3, b"j", b"x"));
    let kd = decode_data_segment(5, &seg);
    let e = kd.get(b"k").unwrap();
    assert_eq!(e, Entry::new(5, 17, 3, 4));
    assert_eq!(kd.get(b"j").unwrap().value_pos as usize, 20 + 22 + 17);
}

#[test]
fn hint_segment_decoding() {
    let mut h = encode_hint_entry(20, b"a", 3, 24);
    h.extend_from_slice(&encode_hint_entry(8, b"bb", 9, 100));
    h.extend_from_slice(&encode_hint_entry(1, b"a", 1, 7));
    h.extend_from_slice(&[1, 2, 3]);
    let kd = decode_hint_segment(6, &h);
    assert_eq!(kd.len(), 2);
    assert_eq!(kd.get(b"a"), Some(Entry::new(6, 7, 1, 1)));
    assert_eq!(kd.get(b"bb"), Some(Entry::new(6, 100, 9, 8)));
}

#[test]
fn recovery_is_independent_of_listing_order() {
    let seg1 = encode_record(5, b"a", b"x");
    let seg2 = encode_record(5, b"a", b"y");
    let p1 = partition_segment_names(&names(&["00000001.data", "00000002.data"]));
    let p2 = partition_segment_names(&names(&["00000002.data", "00000001.data"]));
    assert_eq!(p1.data_ids, p2.data_ids);
    let c = vec![seg1, seg2];
    let a = recover(&p1.hint_ids, &vec![], &p1.data_ids, &c);
    let b = recover(&p2.hint_ids, &vec![], &p2.data_ids, &c);
    assert_eq!(a.get(b"a"), b.get(b"a"));
    assert_eq!(a.get(b"a").unwrap().file_id, 1);
}

#[test]
fn short_write_fails_and_forces_rotation() {
    let mut h = open_empty(1 << 20);
    let r = h.record_put(b"k", 3, 10, 1);
    assert_eq!(r, Err(EngineError::SegmentWrite));
    assert_eq!(h.get(b"k"), None);
    assert!(h.should_rotate(1, 1));
    assert_eq!(h.rotate(), Ok(0));
    assert_eq!(h.active_file_id(), 1);
    assert!(!h.should_rotate(1, 1));
    let w = h.record_put(b"k", 3, 20, 2).unwrap();
    assert_eq!(w.file_id, 1);
    assert_eq!(w.value_pos, 17);
    assert_eq!(h.get(b"k"), Some(Entry::new(1, 17, 3, 2)));
}

#[test]
fn active_file_offsets() {
    let mut a = ActiveFile::new(5, 40, 100);
    assert_eq!(a.id(), 5);
    assert_eq!(a.next_id(), 6);
    assert!(!a.should_rotate(59));
    assert!(a.should_rotate(60));
    let w = a.record_written(2, 3, 21, 9).unwrap();
    assert_eq!((w.file_id, w.value_pos, w.value_size, w.timestamp), (5, 58, 3, 9));
    assert_eq!(a.current_pos(), 61);
    assert_eq!(a.rotate(), Ok(5));
    assert_eq!((a.id(), a.next_id(), a.current_pos()), (6, 7, 0));
    let mut last = ActiveFile::new(u64::MAX - 1, 0, 100);
    assert_eq!(last.rotate(), Err(EngineError::SegmentWrite));
    assert!(last.should_rotate(u64::MAX));
}

#[test]
fn read_check() {
    let e = Entry::new(2, 30, 3, 1);
    assert_eq!(checked_value(e, b"abc".to_vec()), Ok(b"abc".to_vec()));
    assert_eq!(
        checked_value(e, b"ab".to_vec()),
        Err(EngineError::Corruption { segment_id: 2, offset: 30 })
    );
}

#[test]
fn default_config() {
    let c = BitCaskConfig::default();
    assert_eq!(c.max_active_file_size, 64 * 1024 * 1024);
    assert_eq!(c.max_active_file_size(), 64 * 1024 * 1024);
    assert_eq!(c.read_cache_capacity, 50);
    assert_eq!(c.writer_buffer_size, 8 * 1024);
    assert_eq!(c.reader_buffer_size, 8 * 1024);
    assert!(c.recovery_parallelism >= 2);
}

#[test]
fn byte_order() {
    assert_eq!(compare_bytes(b"abc", b"abc"), 0);
    assert!(compare_bytes(b"abc", b"abd") < 0);
    assert!(compare_bytes(b"abd", b"abc") > 0);
    assert!(compare_bytes(b"ab", b"abc") < 0);
    assert!(compare_bytes(b"abc", b"ab") > 0);
    assert_eq!(compare_bytes(b"", b""), 0);
    assert!(compare_bytes(b"", b"a") < 0);
}

#[test]
fn keydir_with_many_keys() {
    let mut kd = Keydir::new();
    for i in (0..200u64).rev() {
        let key = format!("key_{i}").into_bytes();
        kd.update(&key, Entry::new(1, i, 1, i + 1));
    }
    for i in 0..200u64 {
        let key = format!("key_{i}").into_bytes();
        kd.insert(&key, Entry::new(2, i, 1, i + 1));
    }
    assert_eq!(kd.len(), 200);
    for i in 0..200u64 {
        let key = format!("key_{i}").into_bytes();
        assert_eq!(kd.get(&key), Some(Entry::new(2, i, 1, i + 1)));
    }
    assert_eq!(kd.get(b"key_200"), None);
    assert_eq!(kd.max_timestamp(), 200);
}

#[test]
fn file_cache_evicts_least_recently_used() {
    let dir = tempfile::tempdir().unwrap();
    let rt = tokio::runtime::Builder::new_current_thread().enable_all().build().unwrap();
    let mut cache = FileCache::new(2);
    assert!(cache.get(1).is_none());
    for id in 1..=3u64 {
        let path = dir.path().join(format!("{id:08}.data"));
        let f = rt.block_on(tokio::fs::File::create(path)).unwrap();
        cache.insert(id, f);
        if id == 2 {
            assert!(cache.get(1).is_some());
        }
    }
    assert!(cache.get(1).is_some());
    assert!(cache.get(2).is_none());
    assert!(cache.get(3).is_some());
}

#[test]
fn file_cache_zero_capacity_uses_floor() {
    let dir = tempfile::tempdir().unwrap();
    let rt = tokio::runtime::Builder::new_current_thread().enable_all().build().unwrap();
    let mut cache = FileCache::new(0);
    for id in 0..10u64 {
        let path = dir.path().join(format!("{id:08}.data"));
        let f = rt.block_on(tokio::fs::File::create(path)).unwrap();
        cache.insert(id, f);
    }
    for id in 0..10u64 {
        assert!(cache.get(id).is_some());
    }
}

#[test]
fn segment_file_names() {
    assert_eq!(segment_file_name(3, SegmentKind::Data), b"00000003.data".to_vec());
    assert_eq!(segment_file_name(0, SegmentKind::Hint), b"00000000.hint".to_vec());
    assert_eq!(segment_file_name(123456789, SegmentKind::Data), b"123456789.data".to_vec());
    assert_eq!(segment_file_name(u64::MAX, SegmentKind::Data), b"18446744073709551615.data".to_vec());
    for id in [0u64, 7, 99999999, 100000000, u64::MAX - 1] {
        for kind in [SegmentKind::Data, SegmentKind::Hint] {
            assert_eq!(parse_segment_name(&segment_file_name(id, kind)), Some((id, kind)));
        }
    }
}
