use crc_store::{
    crc32, min3, ByteStore, Config, ConfigError, CrcStore, Error, LenError, MemStore, SeekFrom,
};

fn crc_store(data: Vec<u8>) -> Result<CrcStore<MemStore>, Error> {
    let config = Config {
        seg_len: 128,
        buf_len: 256,
        validate_on_read: false,
    };
    CrcStore::new(config, MemStore::new(data))
}

#[test]
fn test_store_test_new_len_0() {
    let result = crc_store(vec![]);
    assert!(matches!(result, Ok(_)));
}

#[test]
fn test_store_test_new_len_1() {
    let result = crc_store(vec![1]);
    assert!(matches!(result, Err(Error::BadInnerLen)));
}

#[test]
fn test_store_test_new_len_2() {
    let result = crc_store(vec![1, 2]);
    assert!(matches!(result, Err(Error::BadInnerLen)));
}

#[test]
fn test_store_test_new_len_3() {
    let result = crc_store(vec![1, 2, 3]);
    assert!(matches!(result, Err(Error::BadInnerLen)));
}

#[test]
fn test_store_test_new_len_4() {
    let result = crc_store(vec![1, 2, 3, 4]);
    assert!(matches!(result, Err(Error::BadInnerLen)));
}

#[test]
fn test_store_test_new_len_5() {
    let result = crc_store(vec![1, 2, 3, 4, 5]);
    assert!(matches!(result, Ok(_)));
}

#[test]
fn new_refuses_a_short_trailing_segment_after_full_ones() {
    assert!(matches!(crc_store(vec![0; 130]), Err(Error::BadInnerLen)));
    assert!(crc_store(vec![0; 133]).is_ok());
    assert!(crc_store(vec![0; 256]).is_ok());
}

#[test]
fn empty_store_with_smallest_segments() {
    let cfg = Config {
        seg_len: 8,
        buf_len: 8,
        validate_on_read: false,
    };
    let mut store = CrcStore::new(cfg, MemStore::new(vec![])).unwrap();
    assert!(store.validate().is_ok());
    assert_eq!(store.outer_len(), 0);
    assert_eq!(store.seg_len(), 8);
    assert_eq!(store.body_len(), 4);
    assert_eq!(store.cfg().buf_len, 8);
    assert_eq!(store.inner_pos(), 0);
}

fn config(seg_len: u32, buf_len: u32) -> Config {
    Config {
        seg_len,
        buf_len,
        validate_on_read: false,
    }
}

#[test]
fn config_errors_name_the_length_and_the_fault() {
    assert_eq!(config(4, 8).validate(), Err(ConfigError::Seg(LenError::TooSmall)));
    assert_eq!(config(131072, 8).validate(), Err(ConfigError::Seg(LenError::TooLarge)));
    assert_eq!(config(24, 8).validate(), Err(ConfigError::Seg(LenError::NotPow2)));
    assert_eq!(config(8, 7).validate(), Err(ConfigError::Buf(LenError::TooSmall)));
    assert_eq!(config(8, 65537).validate(), Err(ConfigError::Buf(LenError::TooLarge)));
    assert_eq!(config(8, 100).validate(), Err(ConfigError::Buf(LenError::NotPow2)));
    assert_eq!(config(8, 8).validate(), Ok(()));
    assert_eq!(config(65536, 65536).validate(), Ok(()));
    // the segment length is judged first
    assert_eq!(config(3, 3).validate(), Err(ConfigError::Seg(LenError::TooSmall)));
}

#[test]
fn new_reports_a_bad_config() {
    let result = CrcStore::new(config(12, 16), MemStore::new(vec![]));
    assert!(matches!(result, Err(Error::Config(ConfigError::Seg(LenError::NotPow2)))));
}

#[test]
fn powers_of_two() {
    assert!(crc_store::is_power_of_two(1));
    assert!(crc_store::is_power_of_two(65536));
    assert!(!crc_store::is_power_of_two(0));
    assert!(!crc_store::is_power_of_two(96));
}

#[test]
fn crc32_of_the_check_string() {
    assert_eq!(crc32(b"123456789"), 0xCBF4_3926);
    assert_eq!(crc32(b""), 0);
    assert_eq!(crc32(b"A demo of CrcStore"), crc32fast::hash(b"A demo of CrcStore"));
}

#[test]
fn min3_picks_the_least() {
    assert_eq!(min3(3, 1, 2), 1);
    assert_eq!(min3(1, 2, 3), 1);
    assert_eq!(min3(5, 5, 4), 4);
}

#[test]
fn into_inner_hands_back_the_bytes() {
    let store = crc_store(vec![9; 133]).unwrap();
    assert_eq!(store.into_inner().into_vec(), vec![9; 133]);
}

#[test]
fn mem_store_reads_writes_and_seeks() {
    let mut m = MemStore::new(vec![1, 2, 3]);
    assert_eq!(m.seek(SeekFrom::End(0)).unwrap(), 3);
    m.write_all(&[4, 5]).unwrap();
    assert_eq!(m.as_slice(), &[1, 2, 3, 4, 5]);
    assert_eq!(m.seek(SeekFrom::Current(-4)).unwrap(), 1);
    let mut buf = [0u8; 8];
    assert_eq!(m.read_some(&mut buf, 2, 6).unwrap(), 4);
    assert_eq!(buf[2..6], [2, 3, 4, 5]);
    assert_eq!(m.position(), 5);
    assert!(m.seek(SeekFrom::Current(-6)).is_err());
    m.seek(SeekFrom::Start(7)).unwrap();
    m.write_all(&[6]).unwrap();
    assert_eq!(m.into_vec(), vec![1, 2, 3, 4, 5, 0, 0, 6]);
}
