use std::collections::BTreeMap;
use tiny_lsm::config::Config;
use tiny_lsm::lsm::{Lsm, LsmAction, Recovery};
use tiny_lsm::record::push_record;
use tiny_lsm::sstable::{read_sstable, Error};
use tiny_lsm::worker::{Worker, WorkerAction, WorkerEvent, WorkerMessage};

/// Files that are kept in memory.
struct Files {
    tables: BTreeMap<u64, Vec<u8>>,
    log: Vec<u8>,
    notices: Vec<WorkerMessage>,
}

impl Files {
    fn new() -> Files {
        Files { tables: BTreeMap::new(), log: Vec::new(), notices: Vec::new() }
    }

    fn list(&self) -> Vec<(u64, Vec<u8>)> {
        self.tables.iter().map(|(id, file)| (*id, file.clone())).collect()
    }

    fn recover<const K: usize, const V: usize>(&mut self, config: Config) -> Recovery<K, V> {
        let recovery = match Lsm::recover_with_config(&self.list(), &self.log, config) {
            Ok(recovery) => recovery,
            Err(e) => panic!("{:?}", e),
        };
        if recovery.log_torn {
            self.log.truncate(recovery.log_len);
        }
        recovery
    }

    /// Does what an operation asks for until it ends.
    fn finish<const K: usize, const V: usize>(
        &mut self,
        lsm: &mut Lsm<K, V>,
        first: LsmAction<V>,
    ) -> Option<[u8; V]> {
        let mut action = first;
        loop {
            match action {
                LsmAction::AppendLog(bytes) => self.log.extend(bytes),
                LsmAction::SyncLog => {}
                LsmAction::WriteSstable(id) => {
                    self.tables.insert(id, lsm.memtable_sstable().unwrap());
                }
                LsmAction::TruncateLog(notice) => {
                    self.notices.push(notice);
                    self.log.clear();
                }
                LsmAction::Done(previous) => return previous,
                LsmAction::Failed => panic!("failed"),
            }
            assert!(lsm.accepts(true));
            action = lsm.resume(true);
        }
    }

    fn insert<const K: usize, const V: usize>(
        &mut self,
        lsm: &mut Lsm<K, V>,
        k: [u8; K],
        v: [u8; V],
    ) -> Option<[u8; V]> {
        let first = lsm.insert(k, v);
        self.finish(lsm, first)
    }

    fn remove<const K: usize, const V: usize>(
        &mut self,
        lsm: &mut Lsm<K, V>,
        k: [u8; K],
    ) -> Option<[u8; V]> {
        let first = lsm.remove(&k);
        self.finish(lsm, first)
    }

    fn flush<const K: usize, const V: usize>(&mut self, lsm: &mut Lsm<K, V>) {
        let first = lsm.flush();
        assert_eq!(self.finish(lsm, first), None);
    }

    /// Lets the worker go on until it waits, and stops it after some steps.
    fn compact<const K: usize, const V: usize>(&mut self, worker: &mut Worker<K, V>, limit: usize) {
        let mut event = match self.notices.is_empty() {
            true => WorkerEvent::Empty,
            false => WorkerEvent::Message(self.notices.remove(0)),
        };
        for _ in 0..limit {
            assert!(worker.accepts(&event));
            event = match worker.run(event) {
                WorkerAction::Poll | WorkerAction::Wait if !self.notices.is_empty() => {
                    WorkerEvent::Message(self.notices.remove(0))
                }
                WorkerAction::Poll => WorkerEvent::Empty,
                WorkerAction::Wait | WorkerAction::Quit => return,
                WorkerAction::ReadTable(id) => {
                    WorkerEvent::TableRead(read_sstable::<K, V>(&self.tables[&id]).unwrap().entries)
                }
                WorkerAction::WriteTable(id) => {
                    self.tables.insert(id, worker.merged_sstable().unwrap());
                    WorkerEvent::Done
                }
                WorkerAction::RemoveTable(id) => {
                    assert!(self.tables.remove(&id).is_some());
                    WorkerEvent::Done
                }
                WorkerAction::SyncDirectory => WorkerEvent::Done,
            };
        }
    }
}

fn small_log(max_log_length: usize) -> Config {
    Config { max_log_length, ..Config::default() }
}

fn next(state: &mut u64) -> u64 {
    *state = state.wrapping_mul(6364136223846793005).wrapping_add(1442695040888963407);
    *state >> 33
}

#[test]
fn a_stored_value_is_found() {
    let mut files = Files::new();
    let recovery = match Lsm::recover(&files.list(), &files.log) {
        Ok(recovery) => recovery,
        Err(e) => panic!("{:?}", e),
    };
    let mut lsm = recovery.lsm;
    let key: [u8; 8] = 8_u64.to_le_bytes();
    let value: [u8; 1] = 255_u8.to_le_bytes();
    files.insert(&mut lsm, key, value);
    assert_eq!(lsm.get(&key), Some(&value));
}

#[test]
fn insertions_and_removals_give_the_previous_value() {
    let mut files = Files::new();
    let mut lsm = files.recover::<1, 1>(Config::default()).lsm;
    assert_eq!(files.insert(&mut lsm, [1], [10]), None);
    assert_eq!(files.insert(&mut lsm, [1], [11]), Some([10]));
    assert_eq!(files.remove(&mut lsm, [2]), None);
    assert_eq!(files.remove(&mut lsm, [1]), Some([11]));
    assert_eq!(files.remove(&mut lsm, [1]), None);
    assert_eq!(lsm.len(), 0);
}

#[test]
fn a_mutation_is_logged_as_one_record() {
    let mut files = Files::new();
    let mut lsm = files.recover::<1, 1>(Config::default()).lsm;
    files.insert(&mut lsm, [1], [10]);
    files.remove(&mut lsm, [2]);
    let mut expected = Vec::new();
    push_record(&mut expected, &[1], &Some([10]));
    push_record::<1, 1>(&mut expected, &[2], &None);
    assert_eq!(files.log, expected);
}

#[test]
fn the_log_becomes_an_sstable_when_it_is_too_long() {
    let mut files = Files::new();
    // three records of seven bytes
    let mut lsm = files.recover::<1, 1>(small_log(21)).lsm;
    for i in 0..3u8 {
        files.insert(&mut lsm, [i], [i]);
    }
    assert_eq!(files.log.len(), 21);
    assert!(files.tables.is_empty());
    files.insert(&mut lsm, [0], [9]);
    assert!(files.log.is_empty());
    assert_eq!(files.tables.len(), 1);
    let table = read_sstable::<1, 1>(&files.tables[&1]).unwrap();
    assert_eq!(table.entries, vec![([0], Some([9])), ([1], Some([1])), ([2], Some([2]))]);
    assert_eq!(
        files.notices,
        vec![WorkerMessage::NewSST { id: 1, sst_sz: 29, db_sz: 6 }]
    );
    assert_eq!(table.size, 29);
}

#[test]
fn a_flush_only_syncs_a_short_log() {
    let mut files = Files::new();
    let mut lsm = files.recover::<1, 1>(Config::default()).lsm;
    files.insert(&mut lsm, [1], [1]);
    assert!(matches!(lsm.flush(), LsmAction::SyncLog));
    assert!(matches!(lsm.resume(true), LsmAction::Done(None)));
    assert_eq!(files.log.len(), 7);
}

#[test]
fn a_flush_writes_a_log_that_was_recovered_too_long() {
    let mut files = Files::new();
    let mut lsm = files.recover::<1, 1>(Config::default()).lsm;
    files.insert(&mut lsm, [1], [1]);
    files.insert(&mut lsm, [2], [2]);
    let mut lsm = files.recover::<1, 1>(small_log(13)).lsm;
    files.flush(&mut lsm);
    assert!(files.log.is_empty());
    assert_eq!(files.tables.len(), 1);
    assert_eq!(files.recover::<1, 1>(Config::default()).lsm.entries(), lsm.entries());
}

#[test]
fn the_steps_of_an_insertion_with_a_flush() {
    let mut files = Files::new();
    let mut lsm = files.recover::<1, 1>(small_log(0)).lsm;
    assert!(!lsm.accepts(true));
    assert!(matches!(lsm.insert([1], [2]), LsmAction::AppendLog(_)));
    assert!(matches!(lsm.resume(true), LsmAction::SyncLog));
    assert!(matches!(lsm.resume(true), LsmAction::WriteSstable(1)));
    assert!(matches!(
        lsm.resume(true),
        LsmAction::TruncateLog(WorkerMessage::NewSST { id: 1, sst_sz: 15, db_sz: 0 })
    ));
    assert_eq!(lsm.get(&[1]), None);
    assert!(matches!(lsm.resume(true), LsmAction::Done(None)));
    assert_eq!(lsm.get(&[1]), Some(&[2]));
    assert!(matches!(lsm.remove(&[1]), LsmAction::AppendLog(_)));
    assert!(matches!(lsm.resume(true), LsmAction::SyncLog));
    assert!(matches!(lsm.resume(true), LsmAction::WriteSstable(2)));
}

#[test]
fn a_failure_before_the_log_leaves_everything() {
    let mut files = Files::new();
    let mut lsm = files.recover::<1, 1>(Config::default()).lsm;
    files.insert(&mut lsm, [1], [1]);
    assert!(matches!(lsm.insert([1], [2]), LsmAction::AppendLog(_)));
    assert!(lsm.accepts(false));
    assert!(matches!(lsm.resume(false), LsmAction::Failed));
    assert_eq!(lsm.get(&[1]), Some(&[1]));
    let recovered = files.recover::<1, 1>(Config::default()).lsm;
    assert_eq!(recovered.entries(), lsm.entries());
}

#[test]
fn a_failed_flush_keeps_the_memtable() {
    let mut files = Files::new();
    let mut lsm = files.recover::<1, 1>(small_log(7)).lsm;
    files.insert(&mut lsm, [1], [1]);
    match lsm.insert([2], [2]) {
        LsmAction::AppendLog(bytes) => files.log.extend(bytes),
        _ => panic!("no record"),
    }
    assert!(matches!(lsm.resume(true), LsmAction::SyncLog));
    assert!(matches!(lsm.resume(true), LsmAction::WriteSstable(1)));
    assert!(matches!(lsm.resume(false), LsmAction::Failed));
    // the entry is in the log, but not in the data
    assert_eq!(lsm.get(&[2]), None);
    assert_eq!(files.recover::<1, 1>(Config::default()).lsm.get(&[2]), Some(&[2]));
    // the next flush writes both entries, under the same id
    files.flush(&mut lsm);
    let table = read_sstable::<1, 1>(&files.tables[&1]).unwrap();
    assert_eq!(table.entries, vec![([1], Some([1])), ([2], Some([2]))]);
    assert!(files.log.is_empty());
}

#[test]
fn an_interrupted_sstable_loses_nothing() {
    let tables = vec![(1, vec![([1], Some([1])), ([2], Some([2])), ([9], Some([9]))])];
    let memtable = vec![([1], None), ([2], Some([22])), ([3], Some([33])), ([4], None)];
    let mut log = Vec::new();
    push_record(&mut log, &[3], &Some([30]));
    push_record::<1, 1>(&mut log, &[4], &None);
    push_record::<1, 1>(&mut log, &[1], &None);
    push_record(&mut log, &[2], &Some([22]));
    push_record(&mut log, &[3], &Some([33]));
    let whole = Lsm::<1, 1>::rebuild(&tables, &log, Config::default()).unwrap().lsm.entries();
    assert_eq!(whole, vec![([2], [22]), ([3], [33]), ([9], [9])]);
    for n in 0..=memtable.len() {
        let mut found = tables.clone();
        found.push((2, memtable[..n].to_vec()));
        let recovery = Lsm::<1, 1>::rebuild(&found, &log, Config::default()).unwrap();
        assert_eq!(recovery.lsm.entries(), whole);
    }
}

#[test]
fn only_the_key_of_a_failed_mutation_differs() {
    let mut files = Files::new();
    let mut lsm = files.recover::<1, 1>(small_log(14)).lsm;
    files.insert(&mut lsm, [1], [1]);
    files.insert(&mut lsm, [2], [2]);
    match lsm.remove(&[1]) {
        LsmAction::AppendLog(bytes) => files.log.extend(bytes),
        _ => panic!("no record"),
    }
    assert!(matches!(lsm.resume(true), LsmAction::SyncLog));
    assert!(matches!(lsm.resume(false), LsmAction::Failed));
    assert_eq!(lsm.entries(), vec![([1], [1]), ([2], [2])]);
    let recovered = files.recover::<1, 1>(Config::default()).lsm;
    assert_eq!(recovered.entries(), vec![([2], [2])]);
    // a later insertion of the key makes up for it
    files.insert(&mut lsm, [1], [5]);
    let recovered = files.recover::<1, 1>(Config::default()).lsm;
    assert_eq!(recovered.entries(), lsm.entries());
}

#[test]
fn a_log_that_could_not_be_emptied_does_no_harm() {
    let mut files = Files::new();
    let mut lsm = files.recover::<1, 1>(small_log(7)).lsm;
    files.insert(&mut lsm, [1], [1]);
    files.insert(&mut lsm, [1], [3]);
    let first = lsm.flush();
    assert!(matches!(first, LsmAction::SyncLog));
    assert!(matches!(lsm.resume(true), LsmAction::Done(None)));
    files.insert(&mut lsm, [5], [5]);
    match lsm.remove(&[1]) {
        LsmAction::AppendLog(bytes) => files.log.extend(bytes),
        _ => panic!("no record"),
    }
    assert!(matches!(lsm.resume(true), LsmAction::SyncLog));
    assert!(matches!(lsm.resume(true), LsmAction::WriteSstable(2)));
    files.tables.insert(2, lsm.memtable_sstable().unwrap());
    assert!(matches!(lsm.resume(true), LsmAction::TruncateLog(_)));
    assert!(matches!(lsm.resume(false), LsmAction::Failed));
    let recovered = files.recover::<1, 1>(Config::default()).lsm;
    assert_eq!(recovered.entries(), vec![([5], [5])]);
    // the log is still counted as too long: the next flush goes on
    files.flush(&mut lsm);
    assert!(files.log.is_empty());
    assert!(files.tables.contains_key(&3));
    let recovered = files.recover::<1, 1>(Config::default()).lsm;
    assert_eq!(recovered.entries(), vec![([5], [5])]);
}

#[test]
fn recovery_gives_the_data_back() {
    let mut state: u64 = 11;
    let mut files = Files::new();
    let mut model: BTreeMap<[u8; 2], [u8; 3]> = BTreeMap::new();
    let config = Config { max_log_length: 300, merge_window: 4, ..Config::default() };
    let mut recovery = files.recover::<2, 3>(config);
    for step in 0..3000u64 {
        let n = next(&mut state) % 90;
        let key = [(n / 10) as u8, (n % 10) as u8];
        if next(&mut state) % 4 == 0 {
            assert_eq!(files.remove(&mut recovery.lsm, key), model.remove(&key));
        } else {
            let value = [(step % 251) as u8, n as u8, 7];
            let previous = files.insert(&mut recovery.lsm, key, value);
            assert_eq!(previous, model.insert(key, value));
        }
        assert_eq!(recovery.lsm.get(&key), model.get(&key));
        if step % 37 == 0 {
            // the worker may be interrupted anywhere
            files.compact(&mut recovery.worker, (next(&mut state) % 40) as usize + 1);
            files.notices.clear();
            let config = Config {
                max_log_length: 100 + (step as usize % 700),
                merge_window: 2 + (step as usize % 4),
                ..Config::default()
            };
            recovery = files.recover::<2, 3>(config);
            assert!(recovery.incomplete.is_empty());
            assert!(!recovery.log_torn);
        }
        let all: Vec<([u8; 2], [u8; 3])> = model.iter().map(|(k, v)| (*k, *v)).collect();
        assert_eq!(recovery.lsm.entries(), all);
    }
}

#[test]
fn a_crash_loses_the_last_writes_only() {
    let mut files = Files::new();
    let mut lsm = files.recover::<1, 1>(Config::default()).lsm;
    let mut states = vec![lsm.entries()];
    for i in 0..20u8 {
        if i % 3 == 2 {
            files.remove(&mut lsm, [i / 2]);
        } else {
            files.insert(&mut lsm, [i % 7], [i]);
        }
        states.push(lsm.entries());
    }
    for len in 0..=files.log.len() {
        let log = files.log[..len].to_vec();
        match Lsm::<1, 1>::recover(&files.list(), &log) {
            Ok(recovery) => {
                assert_eq!(recovery.lsm.entries(), states[len / 7]);
                assert_eq!(recovery.log_len, len / 7 * 7);
                assert_eq!(recovery.log_torn, len % 7 != 0);
            }
            Err(e) => panic!("{:?}", e),
        }
    }
}

#[test]
fn a_torn_log_is_cut_off() {
    let mut files = Files::new();
    let mut lsm = files.recover::<1, 1>(Config::default()).lsm;
    files.insert(&mut lsm, [1], [1]);
    files.insert(&mut lsm, [2], [2]);
    files.insert(&mut lsm, [3], [3]);
    files.log[8] ^= 1;
    let mut recovery = files.recover::<1, 1>(Config::default());
    assert!(recovery.log_torn);
    assert_eq!(recovery.log_len, 7);
    assert_eq!(recovery.lsm.entries(), vec![([1], [1])]);
    files.insert(&mut recovery.lsm, [4], [4]);
    let recovered = files.recover::<1, 1>(Config::default()).lsm;
    assert_eq!(recovered.entries(), vec![([1], [1]), ([4], [4])]);
}

#[test]
fn less_than_a_record_at_the_end_of_the_log_is_cut_off() {
    let mut files = Files::new();
    let mut lsm = files.recover::<1, 1>(Config::default()).lsm;
    files.insert(&mut lsm, [1], [10]);
    files.log.extend([0xaa, 0xbb, 0xcc]);
    let mut recovery = files.recover::<1, 1>(Config::default());
    assert!(recovery.log_torn);
    assert_eq!(recovery.log_len, 7);
    assert_eq!(files.log.len(), 7);
    files.insert(&mut recovery.lsm, [2], [20]);
    files.flush(&mut recovery.lsm);
    let recovered = files.recover::<1, 1>(Config::default()).lsm;
    assert_eq!(recovered.entries(), vec![([1], [10]), ([2], [20])]);
}

#[test]
fn records_behind_a_torn_one_are_dropped() {
    let mut files = Files::new();
    let mut lsm = files.recover::<1, 1>(Config::default()).lsm;
    files.insert(&mut lsm, [1], [10]);
    files.insert(&mut lsm, [2], [20]);
    files.insert(&mut lsm, [3], [30]);
    files.log[7] ^= 1;
    let recovery = files.recover::<1, 1>(Config::default());
    assert_eq!(recovery.lsm.entries(), vec![([1], [10])]);
    assert_eq!(files.log.len(), 7);
}

#[test]
fn newer_sstables_count_over_older_ones_and_the_log_over_all() {
    let tables = vec![
        (1, vec![([1], Some([1])), ([2], Some([1])), ([3], Some([1]))]),
        (4, vec![([2], None), ([3], Some([4]))]),
    ];
    let mut log = Vec::new();
    push_record(&mut log, &[3], &Some([9]));
    push_record(&mut log, &[5], &Some([5]));
    let recovery = Lsm::<1, 1>::rebuild(&tables, &log, small_log(0)).unwrap();
    let mut lsm = recovery.lsm;
    assert_eq!(lsm.entries(), vec![([1], [1]), ([3], [9]), ([5], [5])]);
    assert_eq!(recovery.log_len, 14);
    // the next sstable has the next id and holds what was logged
    assert!(matches!(lsm.flush(), LsmAction::SyncLog));
    assert!(matches!(lsm.resume(true), LsmAction::WriteSstable(5)));
    let file = lsm.memtable_sstable().unwrap();
    assert_eq!(
        read_sstable::<1, 1>(&file).unwrap().entries,
        vec![([3], Some([9])), ([5], Some([5]))]
    );
}

#[test]
fn the_worker_of_a_recovered_database_knows_the_sizes() {
    // 8 + 7 and 8 + 14 bytes, and 2 bytes of data
    let tables = vec![
        (1, vec![([1], Some([1]))]),
        (2, vec![([1], Some([2])), ([3], None)]),
    ];
    let due = |max_space_amp: u64| {
        let config = Config { max_space_amp, ..Config::default() };
        Lsm::<1, 1>::rebuild(&tables, &[], config).unwrap().worker.sstable_maintenance()
    };
    // 37 is more than 18 times 2, and not more than 19 times 2
    assert_eq!(due(18), Some(vec![1, 2]));
    assert_eq!(due(19), None);
}

#[test]
fn an_sstable_without_its_number_of_records_is_an_error() {
    let files = vec![(1, Vec::new())];
    assert!(matches!(Lsm::<1, 1>::recover(&files, &[]), Err(Error::Truncated)));
}

#[test]
fn an_incomplete_sstable_is_told() {
    let mut files = Files::new();
    let mut lsm = files.recover::<8, 8>(small_log(1_000_000)).lsm;
    let mut state: u64 = 3;
    while files.tables.is_empty() {
        let key = next(&mut state).to_be_bytes();
        let value = next(&mut state).wrapping_mul(0x9e37_79b9_7f4a_7c15).to_be_bytes();
        files.insert(&mut lsm, key, value);
    }
    let half = files.tables[&1].len() / 2;
    let whole = files.tables[&1].clone();
    files.tables.insert(1, whole[..half].to_vec());
    files.tables.insert(2, whole);
    let recovery = files.recover::<8, 8>(Config::default());
    assert_eq!(recovery.incomplete, vec![1]);
    assert_eq!(recovery.lsm.entries(), lsm.entries());
}

#[test]
fn compaction_leaves_the_data_as_it_was() {
    let mut files = Files::new();
    let config = Config { max_log_length: 20, max_space_amp: 3, ..Config::default() };
    let mut recovery = files.recover::<1, 1>(config);
    for i in 0..60u8 {
        files.insert(&mut recovery.lsm, [i % 5], [i]);
        files.remove(&mut recovery.lsm, [(i + 2) % 5]);
    }
    assert!(files.tables.len() > 10);
    let before = recovery.lsm.entries();
    for limit in 1..40 {
        files.compact(&mut recovery.worker, limit);
        let recovered = files.recover::<1, 1>(config);
        assert_eq!(recovered.lsm.entries(), before);
        recovery.worker = recovered.worker;
    }
    files.compact(&mut recovery.worker, 10_000);
    assert_eq!(files.tables.len(), 1);
    assert_eq!(files.recover::<1, 1>(config).lsm.entries(), before);
}
