use crc_store::{Config, CrcStore, MemStore, SeekFrom};
use rand::RngCore;

fn random_bytes<R: RngCore>(rng: &mut R, len: usize) -> Vec<u8> {
    let mut buf = vec![0; len];
    rng.fill_bytes(&mut buf);
    buf
}

fn empty_crc_store() -> CrcStore<MemStore> {
    let cfg = Config {
        seg_len: 16,
        buf_len: 16,
        validate_on_read: false,
    };
    CrcStore::new(cfg, MemStore::new(vec![])).unwrap()
}

#[test]
fn test_write_24() {
    let mut store = empty_crc_store();

    let mut rng = rand::thread_rng();
    let data = random_bytes(&mut rng, 24);
    assert_eq!(store.write(&data).unwrap(), 24);
    let inner = store.into_inner().into_vec();

    // segment 0
    let body = &data[0..12];
    assert_eq!(inner[0..12], *body);
    let cs_bytes = crc32fast::hash(body).to_be_bytes();
    assert_eq!(inner[12..16], cs_bytes);

    // segment 1
    let body = &data[12..24];
    assert_eq!(inner[16..28], *body);
    let cs_bytes = crc32fast::hash(body).to_be_bytes();
    assert_eq!(inner[28..32], cs_bytes);
}

#[test]
fn test_write_24_seek_start_4_write_4() {
    let mut store = empty_crc_store();

    let mut rng = rand::thread_rng();
    let data_0 = random_bytes(&mut rng, 24);
    assert_eq!(store.write(&data_0).unwrap(), 24);

    store.seek(SeekFrom::Start(4)).unwrap();

    let data_1 = random_bytes(&mut rng, 4);
    assert_eq!(store.write(&data_1).unwrap(), 4);
    let written = store.into_inner().into_vec();

    assert_eq!(written[0..4], data_0[0..4]);
    assert_eq!(written[4..8], data_1[0..4]);
    assert_eq!(written[8..12], data_0[8..12]);
    let cs_bytes = crc32fast::hash(&written[0..12]).to_be_bytes();
    assert_eq!(written[12..16], cs_bytes);
    // the second segment is untouched
    assert_eq!(written[16..28], data_0[12..24]);
    assert_eq!(written[28..32], crc32fast::hash(&data_0[12..24]).to_be_bytes());
}

#[test]
fn test_write_18() {
    let mut store = empty_crc_store();

    let mut rng = rand::thread_rng();
    let data = random_bytes(&mut rng, 18);
    assert_eq!(store.write(&data).unwrap(), 18);
    let inner = store.into_inner().into_vec();
    assert_eq!(inner.len(), 26);

    // segment 0
    let body = &data[0..12];
    assert_eq!(inner[0..12], *body);
    let cs_bytes = crc32fast::hash(body).to_be_bytes();
    assert_eq!(inner[12..16], cs_bytes);

    // segment 1
    let body = &data[12..18];
    assert_eq!(inner[16..22], *body);
    let cs_bytes = crc32fast::hash(body).to_be_bytes();
    assert_eq!(inner[22..26], cs_bytes);
}

#[test]
fn write_then_read_back_round_trips() {
    let mut rng = rand::thread_rng();
    for seg_len in [8u32, 16, 64] {
        for buf_len in [8u32, 16, 128] {
            for len in [0usize, 1, 3, 4, 5, 11, 12, 13, 60, 10 * seg_len as usize] {
                let cfg = Config {
                    seg_len,
                    buf_len,
                    validate_on_read: false,
                };
                let mut store = CrcStore::new(cfg, MemStore::new(vec![])).unwrap();
                let data = random_bytes(&mut rng, len);
                assert_eq!(store.write(&data).unwrap(), len);
                store.seek(SeekFrom::Start(0)).unwrap();
                let mut back = vec![0; len];
                assert_eq!(store.read(&mut back).unwrap(), len);
                assert_eq!(back, data);
                assert!(store.validate().is_ok());
            }
        }
    }
}

#[test]
fn overwrites_match_a_spliced_model() {
    let mut rng = rand::thread_rng();
    let cfg = Config {
        seg_len: 16,
        buf_len: 8,
        validate_on_read: false,
    };
    let mut store = CrcStore::new(cfg, MemStore::new(vec![])).unwrap();
    let mut model = random_bytes(&mut rng, 30);
    store.write(&model).unwrap();
    for (o, n) in [(0usize, 1usize), (5, 3), (11, 2), (12, 12), (20, 10), (29, 5), (34, 1), (3, 40)] {
        let r = random_bytes(&mut rng, n);
        store.seek(SeekFrom::Start(o as u64)).unwrap();
        assert_eq!(store.write(&r).unwrap(), n);
        if o + n > model.len() {
            model.resize(o + n, 0);
        }
        model[o..o + n].copy_from_slice(&r);
        assert_eq!(store.outer_len() as usize, model.len());
        store.seek(SeekFrom::Start(0)).unwrap();
        let mut back = vec![0; model.len() + 3];
        assert_eq!(store.read(&mut back).unwrap(), model.len());
        assert_eq!(back[..model.len()], model[..]);
        assert!(store.validate().is_ok());
    }
}

#[test]
fn write_leaves_the_cursor_after_the_written_bytes() {
    let mut rng = rand::thread_rng();
    let mut store = empty_crc_store();
    let data = random_bytes(&mut rng, 30);
    store.write(&data).unwrap();
    // 30 outer bytes: 12 + 12 + 6, the cursor rests after the last body byte
    assert_eq!(store.inner_pos(), 38);
    store.seek(SeekFrom::Start(2)).unwrap();
    store.write(&[1, 2, 3]).unwrap();
    assert_eq!(store.inner_pos(), 5);
    store.write(&[4, 5]).unwrap();
    let mut back = vec![0; 30];
    store.seek(SeekFrom::Start(0)).unwrap();
    store.read(&mut back).unwrap();
    assert_eq!(back[2..7], [1, 2, 3, 4, 5]);
}

#[test]
fn appended_length_counts_one_checksum_per_started_segment() {
    let mut rng = rand::thread_rng();
    for k in [0usize, 1, 11, 12, 13, 24, 25, 100] {
        let mut store = empty_crc_store();
        let data = random_bytes(&mut rng, k);
        store.write(&data).unwrap();
        let expected = if k == 0 { 0 } else { k + 4 * ((k + 11) / 12) };
        assert_eq!(store.inner_len() as usize, expected);
        assert_eq!(store.into_inner().into_vec().len(), expected);
    }
}

#[test]
fn appending_in_pieces_matches_one_write() {
    let mut rng = rand::thread_rng();
    let data = random_bytes(&mut rng, 40);
    let mut one = empty_crc_store();
    one.write(&data).unwrap();
    let mut pieces = empty_crc_store();
    for chunk in data.chunks(7) {
        pieces.write(chunk).unwrap();
    }
    assert_eq!(one.into_inner().into_vec(), pieces.into_inner().into_vec());
}

#[test]
fn empty_write_changes_nothing() {
    let mut rng = rand::thread_rng();
    let mut store = empty_crc_store();
    store.write(&random_bytes(&mut rng, 18)).unwrap();
    store.seek(SeekFrom::Start(14)).unwrap();
    let before = store.inner_pos();
    assert_eq!(store.write(&[]).unwrap(), 0);
    assert_eq!(store.inner_pos(), before);
    assert_eq!(store.inner_len(), 26);
}

#[test]
fn flush_succeeds_on_memory() {
    let mut store = empty_crc_store();
    store.write(&[1, 2, 3]).unwrap();
    assert!(store.flush().is_ok());
}
