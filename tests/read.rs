use crc_store::{Config, CrcStore, MemStore, SeekFrom};
use rand::RngCore;

/// Random bytes that form valid segments (full ones, then a partial one).
fn valid_data<R: RngCore>(rng: &mut R, seg_len: u32, len: usize) -> Vec<u8> {
    let mut data = Vec::with_capacity(len);
    let full_segments = len / seg_len as usize;
    let partial_segment_len = len % seg_len as usize;
    for _ in 0..full_segments {
        data.extend(valid_segment(rng, seg_len as usize));
    }
    if partial_segment_len > 0 {
        data.extend(valid_segment(rng, partial_segment_len));
    }
    data
}

/// A random body of `len - 4` bytes followed by its big-endian CRC-32.
fn valid_segment<R: RngCore>(rng: &mut R, len: usize) -> Vec<u8> {
    assert!(len > 4);
    let mut buf = vec![0; len];
    rng.fill_bytes(&mut buf[..len - 4]);
    let checksum = crc32fast::hash(&buf[..len - 4]);
    buf[len - 4..].copy_from_slice(&checksum.to_be_bytes());
    buf
}

fn crc_store(len: usize) -> CrcStore<MemStore> {
    let cfg = Config {
        seg_len: 16,
        buf_len: 16,
        validate_on_read: false,
    };
    let mut rng = rand::thread_rng();
    let data = valid_data(&mut rng, cfg.seg_len, len);
    CrcStore::new(cfg, MemStore::new(data)).unwrap()
}

#[test]
fn test_read_start_0() {
    let mut store = crc_store(128); // body_len=12
    let mut read_buf = vec![0; 48];
    let result = store.read(&mut read_buf);
    let inner: Vec<u8> = store.into_inner().into_vec();
    assert!(result.is_ok());
    assert_eq!(result.unwrap(), 48);
    assert_eq!(read_buf[0..12], inner[0..12]);
    assert_eq!(read_buf[12..24], inner[16..28]);
    assert_eq!(read_buf[24..36], inner[32..44]);
    assert_eq!(read_buf[36..48], inner[48..60]);
}

#[test]
fn test_read_start_1() {
    let mut store = crc_store(128); // body_len=12
    store.seek(SeekFrom::Start(1)).unwrap();
    let mut read_buf = vec![0; 47];
    let result = store.read(&mut read_buf);
    let inner: Vec<u8> = store.into_inner().into_vec();
    assert!(result.is_ok());
    assert_eq!(result.unwrap(), 47);
    assert_eq!(read_buf[0..12 - 1], inner[0 + 1..12]);
    assert_eq!(read_buf[12 - 1..24 - 1], inner[16..28]);
    assert_eq!(read_buf[24 - 1..36 - 1], inner[32..44]);
    assert_eq!(read_buf[36 - 1..48 - 1], inner[48..60]);
}

#[test]
fn test_read_current_12() {
    let mut store = crc_store(128); // body_len=12
    store.seek(SeekFrom::Current(12)).unwrap();
    let mut read_buf = vec![0; 24];
    let result = store.read(&mut read_buf);
    let inner: Vec<u8> = store.into_inner().into_vec();
    assert!(result.is_ok());
    assert_eq!(result.unwrap(), 24);
    assert_eq!(read_buf[0..12], inner[16..28]);
    assert_eq!(read_buf[12..24], inner[32..44]);
}

#[test]
fn read_stops_at_the_end_of_the_outer_bytes() {
    // 22 inner bytes with seg_len 16: 12 + 2 body bytes
    let mut store = crc_store(22);
    let mut read_buf = vec![0; 40];
    assert_eq!(store.read(&mut read_buf).unwrap(), 14);
    let inner = store.into_inner().into_vec();
    assert_eq!(read_buf[0..12], inner[0..12]);
    assert_eq!(read_buf[12..14], inner[16..18]);
}

#[test]
fn read_at_the_end_returns_zero() {
    let mut store = crc_store(32);
    store.seek(SeekFrom::End(0)).unwrap();
    let mut read_buf = vec![0; 8];
    assert_eq!(store.read(&mut read_buf).unwrap(), 0);
}

#[test]
fn read_refuses_validate_on_read() {
    let cfg = Config {
        seg_len: 16,
        buf_len: 16,
        validate_on_read: true,
    };
    let mut rng = rand::thread_rng();
    let data = valid_data(&mut rng, 16, 32);
    let mut store = CrcStore::new(cfg, MemStore::new(data)).unwrap();
    let mut read_buf = vec![0; 8];
    let err = store.read(&mut read_buf).unwrap_err();
    assert_eq!(err.kind(), std::io::ErrorKind::InvalidInput);
}

#[test]
fn test_read_end_8() {
    let mut store = crc_store(128); // body_len=12, 96 outer bytes
    // past the end of the outer bytes: refused
    assert!(store.seek(SeekFrom::End(8)).is_err());
    let pos = store.seek(SeekFrom::End(-8)).unwrap();
    assert_eq!(pos, 116); // 128 - 8 - 4
    let mut read_buf = vec![0; 8];
    let result = store.read(&mut read_buf);
    let inner: Vec<u8> = store.into_inner().into_vec();
    assert!(result.is_ok());
    assert_eq!(result.unwrap(), 8);
    assert_eq!(read_buf[0..8], inner[116..124]);
}

#[test]
fn test_read_end_16() {
    let mut store = crc_store(128); // body_len=12, 96 outer bytes
    // past the end of the outer bytes: refused
    assert!(store.seek(SeekFrom::End(16)).is_err());
    let pos = store.seek(SeekFrom::End(-16)).unwrap();
    //   0 ..  16: segment 0
    //  96 .. 112: segment 6
    // 112 .. 128: segment 7
    assert_eq!(pos, 104);
    let mut read_buf = vec![0; 16];
    let result = store.read(&mut read_buf);
    let inner: Vec<u8> = store.into_inner().into_vec();
    assert!(result.is_ok());
    assert_eq!(result.unwrap(), 16);
    assert_eq!(read_buf[0..4], inner[104..108]);
    assert_eq!(read_buf[4..16], inner[112..124]);
}

#[test]
fn read_leaves_the_rest_of_the_buffer() {
    let mut store = crc_store(22); // 14 outer bytes
    let mut read_buf = vec![0xAA; 20];
    assert_eq!(store.read(&mut read_buf).unwrap(), 14);
    assert_eq!(read_buf[14..20], [0xAA; 6]);
    let mut empty: [u8; 0] = [];
    assert_eq!(store.read(&mut empty).unwrap(), 0);
}
