use std::collections::{BTreeMap, BTreeSet};
use tiny_lsm::config::Config;
use tiny_lsm::directory::{listed, listed_ids};
use tiny_lsm::file_name::{id_format, list_sstables, parse_id, tmp_format};
use tiny_lsm::size::items_fit;

fn names(list: &[&str]) -> Vec<String> {
    list.iter().map(|name| name.to_string()).collect()
}

#[test]
fn default_options() {
    let config = Config::default();
    assert_eq!(config.max_space_amp, 2);
    assert_eq!(config.max_log_length, 33_554_432);
    assert_eq!(config.merge_ratio, 3);
    assert_eq!(config.merge_window, 10);
    assert_eq!(config.log_bufwriter_size, 32_768);
    assert_eq!(config.zstd_sstable_compression_level, 3);
}

#[test]
fn ids_are_written_in_sixteen_digits() {
    assert_eq!(id_format(0), "0000000000000000");
    assert_eq!(id_format(1), "0000000000000001");
    assert_eq!(id_format(0xdead_beef), "00000000deadbeef");
    assert_eq!(id_format(u64::MAX), "ffffffffffffffff");
    for id in [0u64, 9, 10, 15, 16, 255, 4096, 1 << 40, u64::MAX - 1] {
        assert_eq!(id_format(id), format!("{:016x}", id));
    }
}

#[test]
fn rewrites_are_named_by_the_short_id() {
    assert_eq!(tmp_format(0), "0-tmp");
    assert_eq!(tmp_format(31), "1f-tmp");
    for id in [1u64, 16, 0xabc, 1 << 60, u64::MAX] {
        assert_eq!(tmp_format(id), format!("{:x}-tmp", id));
    }
}

#[test]
fn ids_are_read_as_the_standard_library_does() {
    let cases = [
        "0000000000000001", "1", "+1", "ff", "FF", "fF", "ffffffffffffffff", "10000000000000000",
        "00000000000000000000000001", "", "+", "-", "-1", "++1", "1-tmp", "g", "log", " 1", "1 ",
        "\u{e9}", "+ffffffffffffffff", "fffffffffffffffff",
    ];
    for name in cases {
        assert_eq!(parse_id(name), u64::from_str_radix(name, 16).ok(), "{}", name);
    }
}

#[test]
fn an_id_is_read_back_from_its_name() {
    for id in [0u64, 1, 77, 1 << 33, u64::MAX] {
        assert_eq!(parse_id(&id_format(id)), Some(id));
        assert_eq!(parse_id(&tmp_format(id)), None);
    }
}

#[test]
fn the_sstable_directory_is_sorted_out() {
    let listing = list_sstables(&names(&[
        "000000000000000a", "a-tmp", "readme", "0000000000000002", "2", "-tmp", "tmp",
        "0000000000000001", "\u{e9}-tmp",
    ]));
    assert_eq!(listing.ids, vec![1, 2, 10]);
    assert_eq!(listing.leftovers, vec!["a-tmp", "-tmp", "\u{e9}-tmp"]);
}

#[test]
fn an_empty_sstable_directory() {
    let listing = list_sstables(&Vec::new());
    assert!(listing.ids.is_empty());
    assert!(listing.leftovers.is_empty());
}

#[test]
fn a_rewrite_is_listed_for_removal() {
    let listing = list_sstables(&vec![tmp_format(12), id_format(12)]);
    assert_eq!(listing.ids, vec![12]);
    assert_eq!(listing.leftovers, vec!["c-tmp"]);
}

#[test]
fn directories_are_listed_in_order() {
    let mut sizes: BTreeMap<u64, u64> = BTreeMap::new();
    sizes.insert(5, 50);
    sizes.insert(1, 10);
    sizes.insert(3, 30);
    assert_eq!(listed(&sizes), vec![(1, 10), (3, 30), (5, 50)]);
    let ids: BTreeSet<u64> = [9u64, 2, 4].into_iter().collect();
    assert_eq!(listed_ids(&ids), vec![2, 4, 9]);
}

#[test]
fn sizes_at_the_limit() {
    assert!(items_fit(0, u128::MAX, 0));
    assert!(items_fit(usize::MAX, 0, 0));
    assert!(items_fit(10, 10, 100));
    assert!(!items_fit(10, 10, 99));
    assert!(!items_fit(usize::MAX, u128::MAX, u64::MAX));
    assert!(items_fit(1, u64::MAX as u128, u64::MAX));
    assert!(!items_fit(2, u64::MAX as u128, u64::MAX));
}
