use crc_store::{Config, CrcStore, MemStore, SeekFrom, MAX_SEEK};
use rand::RngCore;

fn valid_data<R: RngCore>(rng: &mut R, seg_len: u32, len: usize) -> Vec<u8> {
    let mut data = Vec::with_capacity(len);
    let full_segments = len / seg_len as usize;
    let partial_segment_len = len % seg_len as usize;
    for _ in 0..full_segments {
        data.extend(valid_segment(rng, seg_len as usize));
    }
    if partial_segment_len > 0 {
        data.extend(valid_segment(rng, partial_segment_len));
    }
    data
}

fn valid_segment<R: RngCore>(rng: &mut R, len: usize) -> Vec<u8> {
    assert!(len > 4);
    let mut buf = vec![0; len];
    rng.fill_bytes(&mut buf[..len - 4]);
    let checksum = crc32fast::hash(&buf[..len - 4]);
    buf[len - 4..].copy_from_slice(&checksum.to_be_bytes());
    buf
}

fn crc_store(len: usize) -> CrcStore<MemStore> {
    let cfg = Config {
        seg_len: 8,
        buf_len: 8,
        validate_on_read: false,
    };
    let mut rng = rand::thread_rng();
    let data = valid_data(&mut rng, cfg.seg_len, len);
    CrcStore::new(cfg, MemStore::new(data)).unwrap()
}

#[test]
fn test_start_pos() {
    let store = crc_store(48);

    // segment 0
    assert_eq!(store.start_pos(0), Some(0));
    assert_eq!(store.start_pos(1), Some(1));
    assert_eq!(store.start_pos(2), Some(2));
    assert_eq!(store.start_pos(3), Some(3));
    // segment 1
    assert_eq!(store.start_pos(4), Some(8));
    assert_eq!(store.start_pos(5), Some(9));
    assert_eq!(store.start_pos(6), Some(10));
    assert_eq!(store.start_pos(7), Some(11));
    // segment 2
    assert_eq!(store.start_pos(8), Some(16));
    assert_eq!(store.start_pos(9), Some(17));
    assert_eq!(store.start_pos(10), Some(18));
    assert_eq!(store.start_pos(11), Some(19));
}

#[test]
fn test_rel_inner_pos_seg_offset_0() {
    let store = crc_store(48);
    let inner_pos = 16;
    // segment 1
    assert_eq!(store.rel_inner_pos(-4, inner_pos), Some(-8));
    assert_eq!(store.rel_inner_pos(-3, inner_pos), Some(-7));
    assert_eq!(store.rel_inner_pos(-2, inner_pos), Some(-6));
    assert_eq!(store.rel_inner_pos(-1, inner_pos), Some(-5));
    // segment 2
    assert_eq!(store.rel_inner_pos(0, inner_pos), Some(0));
    assert_eq!(store.rel_inner_pos(1, inner_pos), Some(1));
    assert_eq!(store.rel_inner_pos(2, inner_pos), Some(2));
    assert_eq!(store.rel_inner_pos(3, inner_pos), Some(3));
    // segment 3
    assert_eq!(store.rel_inner_pos(4, inner_pos), Some(8));
    assert_eq!(store.rel_inner_pos(5, inner_pos), Some(9));
    assert_eq!(store.rel_inner_pos(6, inner_pos), Some(10));
    assert_eq!(store.rel_inner_pos(7, inner_pos), Some(11));
    // segment 4
    assert_eq!(store.rel_inner_pos(8, inner_pos), Some(16));
    assert_eq!(store.rel_inner_pos(9, inner_pos), Some(17));
    assert_eq!(store.rel_inner_pos(10, inner_pos), Some(18));
    assert_eq!(store.rel_inner_pos(11, inner_pos), Some(19));
}

#[test]
fn test_rel_inner_pos_seg_offset_1() {
    let store = crc_store(48);
    let inner_pos = 17;
    // segment 1
    assert_eq!(store.rel_inner_pos(-5, inner_pos), Some(-9));
    assert_eq!(store.rel_inner_pos(-4, inner_pos), Some(-8));
    assert_eq!(store.rel_inner_pos(-3, inner_pos), Some(-7));
    assert_eq!(store.rel_inner_pos(-2, inner_pos), Some(-6));
    // segment 2
    assert_eq!(store.rel_inner_pos(-1, inner_pos), Some(-1));
    assert_eq!(store.rel_inner_pos(0, inner_pos), Some(0));
    assert_eq!(store.rel_inner_pos(1, inner_pos), Some(1));
    assert_eq!(store.rel_inner_pos(2, inner_pos), Some(2));
    // segment 3
    assert_eq!(store.rel_inner_pos(3, inner_pos), Some(7));
    assert_eq!(store.rel_inner_pos(4, inner_pos), Some(8));
    assert_eq!(store.rel_inner_pos(5, inner_pos), Some(9));
    assert_eq!(store.rel_inner_pos(6, inner_pos), Some(10));
    // segment 4
    assert_eq!(store.rel_inner_pos(7, inner_pos), Some(15));
    assert_eq!(store.rel_inner_pos(8, inner_pos), Some(16));
    assert_eq!(store.rel_inner_pos(9, inner_pos), Some(17));
    assert_eq!(store.rel_inner_pos(10, inner_pos), Some(18));
}

#[test]
fn test_rel_inner_pos_seg_offset_2() {
    let store = crc_store(48);
    let inner_pos = 18;
    // segment 1
    assert_eq!(store.rel_inner_pos(-6, inner_pos), Some(-10));
    assert_eq!(store.rel_inner_pos(-5, inner_pos), Some(-9));
    assert_eq!(store.rel_inner_pos(-4, inner_pos), Some(-8));
    assert_eq!(store.rel_inner_pos(-3, inner_pos), Some(-7));
    // segment 2
    assert_eq!(store.rel_inner_pos(-2, inner_pos), Some(-2));
    assert_eq!(store.rel_inner_pos(-1, inner_pos), Some(-1));
    assert_eq!(store.rel_inner_pos(0, inner_pos), Some(0));
    assert_eq!(store.rel_inner_pos(1, inner_pos), Some(1));
    // segment 3
    assert_eq!(store.rel_inner_pos(2, inner_pos), Some(6));
    assert_eq!(store.rel_inner_pos(3, inner_pos), Some(7));
    assert_eq!(store.rel_inner_pos(4, inner_pos), Some(8));
    assert_eq!(store.rel_inner_pos(5, inner_pos), Some(9));
    // segment 4
    assert_eq!(store.rel_inner_pos(6, inner_pos), Some(14));
    assert_eq!(store.rel_inner_pos(7, inner_pos), Some(15));
    assert_eq!(store.rel_inner_pos(8, inner_pos), Some(16));
    assert_eq!(store.rel_inner_pos(9, inner_pos), Some(17));
}

#[test]
fn test_rel_inner_pos_offset_3() {
    let store = crc_store(48);
    let inner_pos = 19;
    // segment 1
    assert_eq!(store.rel_inner_pos(-7, inner_pos), Some(-11));
    assert_eq!(store.rel_inner_pos(-6, inner_pos), Some(-10));
    assert_eq!(store.rel_inner_pos(-5, inner_pos), Some(-9));
    assert_eq!(store.rel_inner_pos(-4, inner_pos), Some(-8));
    // segment 2
    assert_eq!(store.rel_inner_pos(-3, inner_pos), Some(-3));
    assert_eq!(store.rel_inner_pos(-2, inner_pos), Some(-2));
    assert_eq!(store.rel_inner_pos(-1, inner_pos), Some(-1));
    assert_eq!(store.rel_inner_pos(0, inner_pos), Some(0));
    // segment 3
    assert_eq!(store.rel_inner_pos(1, inner_pos), Some(5));
    assert_eq!(store.rel_inner_pos(2, inner_pos), Some(6));
    assert_eq!(store.rel_inner_pos(3, inner_pos), Some(7));
    assert_eq!(store.rel_inner_pos(4, inner_pos), Some(8));
    // segment 4
    assert_eq!(store.rel_inner_pos(5, inner_pos), Some(13));
    assert_eq!(store.rel_inner_pos(6, inner_pos), Some(14));
    assert_eq!(store.rel_inner_pos(7, inner_pos), Some(15));
    assert_eq!(store.rel_inner_pos(8, inner_pos), Some(16));
}

#[test]
fn test_len_5_seek_from_end_0() {
    let mut store = crc_store(5);
    let result = store.seek(SeekFrom::End(0));
    assert!(result.is_ok());
    assert_eq!(result.unwrap(), 1);
}

#[test]
fn test_len_5_seek_from_end_1() {
    let mut store = crc_store(5);
    let result = store.seek(SeekFrom::End(-1));
    assert!(result.is_ok());
    assert_eq!(result.unwrap(), 0);
}

#[test]
fn test_len_22_seek_from_end_0() {
    let mut store = crc_store(22);
    let result = store.seek(SeekFrom::End(0));
    assert!(result.is_ok());
    assert_eq!(result.unwrap(), 18);
}

#[test]
fn test_len_22_seek_from_end_1() {
    let mut store = crc_store(22);
    let result = store.seek(SeekFrom::End(-1));
    assert!(result.is_ok());
    assert_eq!(result.unwrap(), 17);
}

#[test]
fn outer_pos_maps_body_bytes_and_rejects_checksum_bytes() {
    let store = crc_store(48);
    assert_eq!(store.outer_pos(0), Some(0));
    assert_eq!(store.outer_pos(3), Some(3));
    assert_eq!(store.outer_pos(4), None);
    assert_eq!(store.outer_pos(7), None);
    assert_eq!(store.outer_pos(8), Some(4));
    assert_eq!(store.outer_pos(19), Some(11));
}

#[test]
fn start_pos_and_outer_pos_invert_each_other() {
    let store = crc_store(48);
    for o in [0u64, 1, 3, 4, 7, 1000, 999_999_999, 1_000_000_000] {
        let i = store.start_pos(o).unwrap();
        assert_eq!(store.outer_pos(i), Some(o));
    }
    for i in 0u64..200 {
        if let Some(o) = store.outer_pos(i) {
            assert_eq!(store.start_pos(o), Some(i));
        }
    }
}

#[test]
fn start_pos_overflow_is_none() {
    let store = crc_store(48);
    assert_eq!(store.start_pos(u64::MAX), None);
}

#[test]
fn seek_start_then_current_matches_seek_start() {
    let mut store = crc_store(48); // 24 outer bytes
    for o in 0i64..=24 {
        for d in -o..=(24 - o) {
            store.seek(SeekFrom::Start(o as u64)).unwrap();
            let a = store.seek(SeekFrom::Current(d)).unwrap();
            let b = store.seek(SeekFrom::Start((o + d) as u64)).unwrap();
            assert_eq!(a, b);
        }
    }
}

#[test]
fn seek_by_zero_stays() {
    let mut store = crc_store(48);
    let p = store.seek(SeekFrom::Start(5)).unwrap();
    assert_eq!(p, 9);
    assert_eq!(store.current_pos(0), Some(0));
    assert_eq!(store.seek(SeekFrom::Current(0)).unwrap(), 9);
}

#[test]
fn seek_one_past_a_body_skips_the_checksum() {
    let mut store = crc_store(48);
    store.seek(SeekFrom::Start(3)).unwrap();
    assert_eq!(store.current_pos(1), Some(5));
    assert_eq!(store.seek(SeekFrom::Current(1)).unwrap(), 8);
}

#[test]
fn seek_out_of_range_is_refused() {
    let mut store = crc_store(22); // 10 outer bytes
    store.seek(SeekFrom::Start(3)).unwrap();
    let kind = store.seek(SeekFrom::Start(11)).unwrap_err().kind();
    assert_eq!(kind, std::io::ErrorKind::InvalidInput);
    assert!(store.seek(SeekFrom::Current(-4)).is_err());
    assert!(store.seek(SeekFrom::End(1)).is_err());
    assert!(store.seek(SeekFrom::Start(MAX_SEEK as u64)).is_err());
    assert!(store.seek(SeekFrom::Current(MAX_SEEK)).is_err());
    // the cursor did not move
    assert_eq!(store.inner_pos(), 3);
}

#[test]
fn end_pos_on_an_empty_store() {
    let cfg = Config {
        seg_len: 8,
        buf_len: 8,
        validate_on_read: false,
    };
    let mut store = CrcStore::new(cfg, MemStore::new(vec![])).unwrap();
    assert_eq!(store.end_pos(0), Some(0));
    assert_eq!(store.seek(SeekFrom::End(0)).unwrap(), 0);
}
