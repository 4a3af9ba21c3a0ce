use crc_store::{Config, CrcStore, MemStore, SeekFrom, ValidateError};
use rand::RngCore;

fn valid_data<R: RngCore>(rng: &mut R, seg_len: u32, len: usize) -> Vec<u8> {
    let mut data = Vec::with_capacity(len);
    let full_segments = len / seg_len as usize;
    let partial_segment_len = len % seg_len as usize;
    for _ in 0..full_segments {
        data.extend(valid_segment(rng, seg_len as usize));
    }
    if partial_segment_len > 0 {
        data.extend(valid_segment(rng, partial_segment_len));
    }
    data
}

fn valid_segment<R: RngCore>(rng: &mut R, len: usize) -> Vec<u8> {
    assert!(len > 4);
    let mut buf = vec![0; len];
    rng.fill_bytes(&mut buf[..len - 4]);
    let checksum = crc32fast::hash(&buf[..len - 4]);
    buf[len - 4..].copy_from_slice(&checksum.to_be_bytes());
    buf
}

fn check_valid(len: usize, lens: &[u32]) {
    let mut rng = rand::thread_rng();
    for &seg_len in lens {
        for &buf_len in lens {
            let config = Config {
                seg_len,
                buf_len,
                validate_on_read: false,
            };
            let data = valid_data(&mut rng, seg_len, len);
            let mut store = CrcStore::new(config, MemStore::new(data)).unwrap();
            let result = store.validate();
            assert!(result.is_ok());
        }
    }
}

#[test]
fn test_validate_len_64() {
    check_valid(64, &[8, 16, 32, 64]);
}

#[test]
fn test_validate_len_480() {
    check_valid(480, &[16, 32, 64, 128, 256]);
}

#[test]
fn test_validate_len_12600() {
    check_valid(12600, &[64, 128, 256, 512, 1024, 2048, 4096]);
}

#[test]
fn flipped_checksum_bit_is_reported() {
    let mut rng = rand::thread_rng();
    let cfg = Config {
        seg_len: 16,
        buf_len: 16,
        validate_on_read: false,
    };
    let mut data = valid_data(&mut rng, 16, 64);
    data[2 * 16 + 13] ^= 0x10;
    let mut store = CrcStore::new(cfg, MemStore::new(data)).unwrap();
    match store.validate() {
        Err(ValidateError::Checksum(v)) => assert_eq!(v, vec![2]),
        _ => panic!("expected a checksum error"),
    }
}

#[test]
fn every_flipped_checksum_bit_is_reported() {
    let mut rng = rand::thread_rng();
    for (seg_len, len) in [(8u32, 22usize), (16, 74), (32, 64)] {
        let clean = valid_data(&mut rng, seg_len, len);
        let s = seg_len as usize;
        let segs = (len + s - 1) / s;
        for k in 0..segs {
            let end = std::cmp::min((k + 1) * s, len);
            for j in end - 4..end {
                for bit in 0..8 {
                    let mut data = clean.clone();
                    data[j] ^= 1 << bit;
                    let cfg = Config {
                        seg_len,
                        buf_len: 8,
                        validate_on_read: false,
                    };
                    let mut store = CrcStore::new(cfg, MemStore::new(data)).unwrap();
                    match store.validate() {
                        Err(ValidateError::Checksum(v)) => assert_eq!(v, vec![k as u64]),
                        _ => panic!("expected a checksum error"),
                    }
                }
            }
        }
    }
}

#[test]
fn several_bad_segments_are_listed_ascending() {
    let mut rng = rand::thread_rng();
    let cfg = Config {
        seg_len: 16,
        buf_len: 64,
        validate_on_read: false,
    };
    let mut data = valid_data(&mut rng, 16, 74);
    data[0] ^= 1; // body of segment 0
    data[3 * 16 + 5] ^= 1; // body of segment 3
    data[72] ^= 1; // checksum of segment 4, a partial one
    let mut store = CrcStore::new(cfg, MemStore::new(data)).unwrap();
    match store.validate() {
        Err(ValidateError::Checksum(v)) => assert_eq!(v, vec![0, 3, 4]),
        _ => panic!("expected a checksum error"),
    }
}

#[test]
fn validate_leaves_the_cursor_at_the_end() {
    let mut rng = rand::thread_rng();
    let cfg = Config {
        seg_len: 8,
        buf_len: 8,
        validate_on_read: false,
    };
    let data = valid_data(&mut rng, 8, 22);
    let mut store = CrcStore::new(cfg, MemStore::new(data)).unwrap();
    store.seek(SeekFrom::Start(3)).unwrap();
    assert!(store.validate().is_ok());
    assert_eq!(store.inner_pos(), 18);
    let mut buf = [0u8; 4];
    assert_eq!(store.read(&mut buf).unwrap(), 0);
}
