use tiny_lsm::config::Config;
use tiny_lsm::ordered_map::OrderedMap;
use tiny_lsm::record::{hash, push_record, read_records};
use tiny_lsm::sstable::{decode_sstable, encode_sstable, read_sstable, write_sstable, Error};

fn log_of(entries: &[([u8; 2], Option<[u8; 1]>)]) -> Vec<u8> {
    let mut log = Vec::new();
    for (key, value) in entries {
        push_record(&mut log, key, value);
    }
    log
}

fn table_of(entries: &[([u8; 2], Option<[u8; 1]>)]) -> OrderedMap<2, Option<[u8; 1]>> {
    let mut map = OrderedMap::new();
    for (key, value) in entries {
        map.insert(*key, *value);
    }
    map
}

#[test]
fn checksums() {
    assert_eq!(hash(&[1, 2], &Some([3])), 0x3305e189);
    assert_eq!(hash::<2, 1>(&[1, 2], &None), 0x12b0d756);
    assert_eq!(hash(&8u64.to_le_bytes(), &Some([255])), 0x9a924e22);
    assert_eq!(hash(&[1, 2], &Some([3])), crc32fast::hash(&[1, 1, 2, 3]) ^ 0xFF);
    assert_ne!(hash(&[1, 2], &Some([0])), hash::<2, 1>(&[1, 2], &None));
}

#[test]
fn the_bytes_of_a_record() {
    let crc = 0x3305e189u32.to_le_bytes();
    assert_eq!(
        log_of(&[([1, 2], Some([3]))]),
        vec![crc[0], crc[1], crc[2], crc[3], 1, 1, 2, 3]
    );
    let crc = 0x12b0d756u32.to_le_bytes();
    assert_eq!(
        log_of(&[([1, 2], None)]),
        vec![crc[0], crc[1], crc[2], crc[3], 0, 1, 2, 0]
    );
}

#[test]
fn records_are_read_back() {
    let entries = vec![([1, 2], Some([3])), ([1, 2], None), ([0, 0], Some([0]))];
    let scan = read_records::<2, 1>(&log_of(&entries), 0);
    assert_eq!(scan.entries, entries);
    assert_eq!(scan.valid_len, 24);
    assert!(!scan.torn);
}

#[test]
fn records_are_read_from_a_position() {
    let mut bytes = vec![9, 9, 9];
    push_record(&mut bytes, &[4, 5], &Some([6]));
    let scan = read_records::<2, 1>(&bytes, 3);
    assert_eq!(scan.entries, vec![([4, 5], Some([6]))]);
    assert_eq!(scan.valid_len, 8);
    let scan = read_records::<2, 1>(&bytes, 11);
    assert!(scan.entries.is_empty());
    assert_eq!(scan.valid_len, 0);
    assert!(!scan.torn);
}

#[test]
fn reading_stops_at_a_wrong_checksum() {
    let entries = vec![([1, 2], Some([3])), ([4, 5], Some([6])), ([7, 8], Some([9]))];
    for i in 8..16 {
        let mut log = log_of(&entries);
        log[i] ^= 0x40;
        let scan = read_records::<2, 1>(&log, 0);
        assert_eq!(scan.entries, entries[..1].to_vec());
        assert_eq!(scan.valid_len, 8);
        assert!(scan.torn);
    }
}

#[test]
fn the_value_bytes_of_a_removal_do_not_count() {
    let mut log = log_of(&[([1, 2], None)]);
    log[7] = 77;
    let scan = read_records::<2, 1>(&log, 0);
    assert_eq!(scan.entries, vec![([1, 2], None)]);
    assert!(!scan.torn);
}

#[test]
fn a_cut_log_gives_the_whole_records() {
    let entries = vec![([1, 2], Some([3])), ([4, 5], None), ([7, 8], Some([9]))];
    let log = log_of(&entries);
    for len in 0..=log.len() {
        let scan = read_records::<2, 1>(&log[..len], 0);
        assert_eq!(scan.entries, entries[..len / 8].to_vec());
        assert!(!scan.torn);
    }
}

#[test]
fn records_without_key_or_value_bytes() {
    let mut log = Vec::new();
    push_record::<0, 0>(&mut log, &[], &Some([]));
    push_record::<0, 0>(&mut log, &[], &None);
    let scan = read_records::<0, 0>(&log, 0);
    assert_eq!(scan.entries, vec![([], Some([])), ([], None)]);
    assert_eq!(scan.valid_len, 10);
}

#[test]
fn the_contents_of_an_sstable() {
    let entries = [([4, 5], None), ([1, 2], Some([3]))];
    let bytes = encode_sstable(&table_of(&entries));
    let mut expected = vec![2, 0, 0, 0, 0, 0, 0, 0];
    expected.extend(log_of(&[([1, 2], Some([3])), ([4, 5], None)]));
    assert_eq!(bytes, expected);
    assert_eq!(encode_sstable(&table_of(&[])), vec![0; 8]);
}

#[test]
fn an_sstable_is_read_back() {
    let entries = vec![([1, 2], Some([3])), ([4, 5], None)];
    let table = decode_sstable::<2, 1>(&encode_sstable(&table_of(&entries))).unwrap();
    assert_eq!(table.entries, entries);
    assert_eq!(table.expected_len, 2);
    assert_eq!(table.size, 24);
    assert!(!table.torn);
}

#[test]
fn a_cut_sstable_is_told() {
    let entries = vec![([1, 2], Some([3])), ([4, 5], None), ([6, 6], Some([6]))];
    let bytes = encode_sstable(&table_of(&entries));
    for len in 8..bytes.len() {
        let table = decode_sstable::<2, 1>(&bytes[..len]).unwrap();
        assert_eq!(table.entries, entries[..(len - 8) / 8].to_vec());
        assert_eq!(table.expected_len, 3);
        assert!((table.entries.len() as u64) < table.expected_len);
    }
    for len in 0..8 {
        assert!(matches!(decode_sstable::<2, 1>(&bytes[..len]), Err(Error::Truncated)));
    }
}

#[test]
fn a_torn_sstable_is_told() {
    let mut bytes = encode_sstable(&table_of(&[([1, 2], Some([3])), ([4, 5], None)]));
    bytes[20] = 2;
    let table = decode_sstable::<2, 1>(&bytes).unwrap();
    assert_eq!(table.entries, vec![([1, 2], Some([3]))]);
    assert_eq!(table.size, 16);
    assert!(table.torn);
}

#[test]
fn a_compressed_sstable_is_read_back() {
    let mut map: OrderedMap<8, Option<[u8; 4]>> = OrderedMap::new();
    for i in 0..50_000u64 {
        let value = if i % 7 == 0 { None } else { Some((i as u32 ^ 0x5a5a).to_le_bytes()) };
        map.insert(i.wrapping_mul(0x9e37_79b9_7f4a_7c15).to_le_bytes(), value);
    }
    for level in [0, 1, 3] {
        let config = Config { zstd_sstable_compression_level: level, ..Config::default() };
        let file = write_sstable(&map, &config).unwrap();
        assert_ne!(file, encode_sstable(&map));
        assert!(file.len() < encode_sstable(&map).len());
        let table = read_sstable::<8, 4>(&file).unwrap();
        assert_eq!(table.entries, map.entries());
        assert_eq!(table.expected_len, 50_000);
        assert_eq!(table.size, 8 + 50_000 * 17);
        assert!(!table.torn);
    }
}

#[test]
fn levels_beyond_those_of_zstd() {
    let map = table_of(&[([1, 2], Some([3])), ([4, 5], None)]);
    for level in [22, 23, 255] {
        let config = Config { zstd_sstable_compression_level: level, ..Config::default() };
        let file = write_sstable(&map, &config).unwrap();
        assert_eq!(read_sstable::<2, 1>(&file).unwrap().entries, map.entries());
    }
}

#[test]
fn compression_is_deterministic() {
    let map = table_of(&[([1, 2], Some([3])), ([4, 5], None)]);
    let config = Config::default();
    assert_eq!(write_sstable(&map, &config).unwrap(), write_sstable(&map, &config).unwrap());
}

#[test]
fn a_cut_file_gives_the_first_records() {
    let mut map: OrderedMap<8, Option<[u8; 4]>> = OrderedMap::new();
    for i in 0..30_000u64 {
        let mixed = i.wrapping_mul(0x9e37_79b9_7f4a_7c15);
        map.insert(i.to_be_bytes(), Some(((mixed >> 20) as u32).to_le_bytes()));
    }
    let file = write_sstable(&map, &Config::default()).unwrap();
    let table = read_sstable::<8, 4>(&file[..file.len() / 2]).unwrap();
    assert_eq!(table.expected_len, 30_000);
    assert!(table.entries.len() < 30_000);
    assert!(table.entries.len() > 0);
    assert_eq!(table.entries, map.entries()[..table.entries.len()].to_vec());
}

#[test]
fn a_file_without_contents_is_truncated() {
    assert!(matches!(read_sstable::<2, 1>(&[]), Err(Error::Truncated)));
    assert!(matches!(read_sstable::<2, 1>(&[1, 2, 3, 4, 5]), Err(Error::Truncated)));
}
