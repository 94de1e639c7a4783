use std::collections::BTreeMap;
use tiny_lsm::config::Config;
use tiny_lsm::sstable::read_sstable;
use tiny_lsm::worker::{Worker, WorkerAction, WorkerEvent, WorkerMessage};

type Entry = ([u8; 1], Option<[u8; 1]>);

fn worker(sizes: &[(u64, u64)], db_sz: u64, config: Config) -> Worker<1, 1> {
    let directory: BTreeMap<u64, u64> = sizes.iter().copied().collect();
    Worker::new(directory, db_sz, config)
}

fn options(max_space_amp: u64, merge_ratio: u64, merge_window: usize) -> Config {
    Config { max_space_amp, merge_ratio, merge_window, ..Config::default() }
}

fn tell(worker: &mut Worker<1, 1>, event: WorkerEvent<1, 1>) -> WorkerAction {
    assert!(worker.accepts(&event));
    worker.run(event)
}

fn new_sst(id: u64, sst_sz: u64, db_sz: u64) -> WorkerEvent<1, 1> {
    WorkerEvent::Message(WorkerMessage::NewSST { id, sst_sz, db_sz })
}

#[test]
fn nothing_is_due_in_an_empty_directory() {
    assert_eq!(worker(&[], 0, Config::default()).sstable_maintenance(), None);
    assert_eq!(worker(&[(1, 1_000_000)], 0, Config::default()).sstable_maintenance(), None);
}

#[test]
fn all_sstables_are_due_when_they_outgrow_the_database() {
    // 21 is more than twice 10, 20 is not
    let sizes = [(2, 10), (1, 10), (5, 1)];
    assert_eq!(worker(&sizes, 10, options(2, 3, 10)).sstable_maintenance(), Some(vec![1, 2, 5]));
    let sizes = [(2, 10), (1, 9), (5, 1)];
    assert_eq!(worker(&sizes, 10, options(2, 3, 10)).sstable_maintenance(), None);
    let sizes = [(1, 25), (2, 25)];
    assert_eq!(worker(&sizes, 20, Config::default()).sstable_maintenance(), Some(vec![1, 2]));
    assert_eq!(worker(&[(1, u64::MAX)], 1, options(2, 3, 10)).sstable_maintenance(), None);
    let sizes = [(1, u64::MAX), (2, u64::MAX)];
    assert_eq!(worker(&sizes, 1, options(2, 3, 10)).sstable_maintenance(), Some(vec![1, 2]));
}

#[test]
fn all_sstables_are_due_when_no_data_are_left() {
    let mut w = worker(&[(1, 6), (2, 6)], 0, Config::default());
    assert_eq!(w.sstable_maintenance(), Some(vec![1, 2]));
    assert_eq!(tell(&mut w, WorkerEvent::Empty), WorkerAction::ReadTable(1));
    let read = WorkerEvent::TableRead(vec![([1], Some([10]))]);
    assert_eq!(tell(&mut w, read), WorkerAction::ReadTable(2));
    assert_eq!(tell(&mut w, WorkerEvent::TableRead(vec![([1], None)])), WorkerAction::WriteTable(2));
    let table = read_sstable::<1, 1>(&w.merged_sstable().unwrap()).unwrap();
    assert_eq!(table.entries, vec![([1], None)]);
    assert_eq!(tell(&mut w, WorkerEvent::Done), WorkerAction::RemoveTable(1));
    assert_eq!(tell(&mut w, WorkerEvent::Done), WorkerAction::SyncDirectory);
    assert_eq!(tell(&mut w, WorkerEvent::Done), WorkerAction::Poll);
    assert_eq!(tell(&mut w, WorkerEvent::Empty), WorkerAction::Wait);
}

#[test]
fn the_first_window_of_like_sizes_is_due() {
    // each but the first has at least a third of the size of the first
    let sizes = [(1, 151), (2, 50), (3, 40), (4, 14), (5, 14), (6, 200)];
    let config = options(1000, 3, 3);
    assert_eq!(worker(&sizes, 100, config).sstable_maintenance(), Some(vec![3, 4, 5]));
    let sizes = [(1, 99), (2, 33), (3, 33)];
    assert_eq!(worker(&sizes, 100, config).sstable_maintenance(), Some(vec![1, 2, 3]));
    let sizes = [(1, 100), (2, 33), (3, 33)];
    assert_eq!(worker(&sizes, 100, config).sstable_maintenance(), None);
    let sizes = [(1, 1), (2, 1)];
    assert_eq!(worker(&sizes, 100, config).sstable_maintenance(), None);
}

#[test]
fn large_sizes_do_not_overflow_the_comparison() {
    let sizes = [(1, u64::MAX), (2, u64::MAX)];
    let config = options(u64::MAX, u64::MAX, 2);
    assert_eq!(worker(&sizes, u64::MAX, config).sstable_maintenance(), Some(vec![1, 2]));
}

#[test]
fn decisions_without_an_answer_are_not_accepted() {
    assert!(worker(&[(1, 1)], 0, Config::default()).accepts(&WorkerEvent::Empty));
    assert!(worker(&[(1, 1)], 0, Config::default()).accepts(&new_sst(2, 1, 0)));
    assert!(!worker(&[(1, 1)], 1, options(2, 3, 0)).accepts(&new_sst(2, 1, 1)));
    assert!(worker(&[(1, 1)], 1, options(2, 3, 0)).accepts(&new_sst(2, 2, 1)));
    assert!(!worker(&[], 0, options(2, 3, 0)).accepts(&WorkerEvent::Empty));
    assert!(worker(&[(1, 9), (2, 9)], 1, options(2, 3, 0)).accepts(&WorkerEvent::Empty));
    assert!(!worker(&[], 0, Config::default()).accepts(&WorkerEvent::Done));
    assert!(!worker(&[], 0, Config::default()).accepts(&WorkerEvent::TableRead(Vec::new())));
}

#[test]
fn the_worker_waits_when_nothing_is_due() {
    let mut w = worker(&[], 0, Config::default());
    let heartbeat = WorkerEvent::Message(WorkerMessage::Heartbeat);
    assert_eq!(tell(&mut w, heartbeat), WorkerAction::Wait);
    assert!(!w.accepts(&WorkerEvent::Empty));
    assert_eq!(tell(&mut w, new_sst(1, 10, 10)), WorkerAction::Poll);
    assert_eq!(tell(&mut w, WorkerEvent::Empty), WorkerAction::Wait);
    let heartbeat = WorkerEvent::Message(WorkerMessage::Heartbeat);
    assert_eq!(tell(&mut w, heartbeat), WorkerAction::Poll);
    assert_eq!(tell(&mut w, WorkerEvent::Disconnected), WorkerAction::Quit);
}

#[test]
fn the_worker_stops() {
    let mut w = worker(&[], 0, Config::default());
    let stop = WorkerEvent::Message(WorkerMessage::Stop);
    assert_eq!(tell(&mut w, stop), WorkerAction::Quit);
    let mut w = worker(&[], 0, Config::default());
    assert_eq!(tell(&mut w, WorkerEvent::Empty), WorkerAction::Wait);
    let stop = WorkerEvent::Message(WorkerMessage::Stop);
    assert_eq!(tell(&mut w, stop), WorkerAction::Quit);
}

#[test]
fn a_compaction_from_start_to_end() {
    let mut w = worker(&[(1, 100), (2, 100)], 10, options(2, 3, 10));
    let oldest: Vec<Entry> = vec![([1], Some([11])), ([2], Some([12])), ([3], Some([13]))];
    let middle: Vec<Entry> = vec![([1], Some([21])), ([2], None)];
    let newest: Vec<Entry> = vec![([3], None), ([4], Some([34]))];
    assert_eq!(tell(&mut w, new_sst(3, 100, 10)), WorkerAction::ReadTable(1));
    assert_eq!(tell(&mut w, WorkerEvent::TableRead(oldest)), WorkerAction::ReadTable(2));
    assert_eq!(tell(&mut w, WorkerEvent::TableRead(middle)), WorkerAction::ReadTable(3));
    assert_eq!(tell(&mut w, WorkerEvent::TableRead(newest)), WorkerAction::WriteTable(3));
    let file = w.merged_sstable().unwrap();
    let table = read_sstable::<1, 1>(&file).unwrap();
    assert_eq!(
        table.entries,
        vec![([1], Some([21])), ([2], None), ([3], None), ([4], Some([34]))]
    );
    assert_eq!(tell(&mut w, WorkerEvent::Done), WorkerAction::RemoveTable(1));
    assert_eq!(tell(&mut w, WorkerEvent::Done), WorkerAction::RemoveTable(2));
    assert_eq!(tell(&mut w, WorkerEvent::Done), WorkerAction::SyncDirectory);
    assert_eq!(tell(&mut w, WorkerEvent::Done), WorkerAction::Poll);
    assert_eq!(tell(&mut w, WorkerEvent::Empty), WorkerAction::Wait);
}

#[test]
fn the_merged_sstable_counts_with_its_contents() {
    // 8 bytes and two records of 7 bytes
    let mut w = worker(&[(1, 15), (2, 15)], 10, options(2, 3, 10));
    assert_eq!(tell(&mut w, WorkerEvent::Empty), WorkerAction::ReadTable(1));
    let read = WorkerEvent::TableRead(vec![([1], Some([1])), ([2], Some([2]))]);
    assert_eq!(tell(&mut w, read), WorkerAction::ReadTable(2));
    let read = WorkerEvent::TableRead(vec![([2], Some([3]))]);
    assert_eq!(tell(&mut w, read), WorkerAction::WriteTable(2));
    assert_eq!(tell(&mut w, WorkerEvent::Done), WorkerAction::RemoveTable(1));
    assert_eq!(tell(&mut w, WorkerEvent::Done), WorkerAction::SyncDirectory);
    assert_eq!(tell(&mut w, WorkerEvent::Done), WorkerAction::Poll);
    // 22 + 8 bytes are not more than twice 15, 22 + 9 are
    assert_eq!(tell(&mut w, new_sst(3, 8, 15)), WorkerAction::Wait);
    assert_eq!(tell(&mut w, new_sst(3, 9, 15)), WorkerAction::Poll);
    assert_eq!(tell(&mut w, WorkerEvent::Empty), WorkerAction::ReadTable(2));
}

#[test]
fn maintenance_comes_to_an_end() {
    let sizes: Vec<(u64, u64)> = (1..=40).map(|id| (id, 100)).collect();
    let mut w = worker(&sizes, 1_000_000, options(2, 3, 2));
    let mut action = tell(&mut w, WorkerEvent::Empty);
    let mut removed = 0;
    let mut steps = 0;
    while action != WorkerAction::Wait {
        let event = match action {
            WorkerAction::ReadTable(id) => {
                WorkerEvent::TableRead((0..10).map(|i| ([i], Some([id as u8]))).collect())
            }
            WorkerAction::RemoveTable(id) => {
                assert_ne!(id, 40);
                removed += 1;
                WorkerEvent::Done
            }
            WorkerAction::Poll => WorkerEvent::Empty,
            _ => WorkerEvent::Done,
        };
        action = tell(&mut w, event);
        steps += 1;
        assert!(steps < 1000);
    }
    assert_eq!(removed, 39);
}

#[test]
fn after_a_failure_the_worker_waits_and_tries_again() {
    let mut w = worker(&[(1, 100), (2, 100)], 10, options(2, 3, 10));
    assert_eq!(tell(&mut w, WorkerEvent::Empty), WorkerAction::ReadTable(1));
    assert_eq!(tell(&mut w, WorkerEvent::Failed), WorkerAction::Wait);
    let heartbeat = WorkerEvent::Message(WorkerMessage::Heartbeat);
    assert_eq!(tell(&mut w, heartbeat), WorkerAction::Poll);
    assert_eq!(tell(&mut w, WorkerEvent::Empty), WorkerAction::ReadTable(1));
    let read = WorkerEvent::TableRead(vec![([9], Some([9]))]);
    assert_eq!(tell(&mut w, read), WorkerAction::ReadTable(2));
    let read = WorkerEvent::TableRead(Vec::new());
    assert_eq!(tell(&mut w, read), WorkerAction::WriteTable(2));
    assert_eq!(tell(&mut w, WorkerEvent::Failed), WorkerAction::Wait);
}

#[test]
fn a_window_of_one_sstable_is_rewritten() {
    let mut w = worker(&[(4, 10)], 10, options(2, 3, 1));
    assert_eq!(tell(&mut w, WorkerEvent::Empty), WorkerAction::ReadTable(4));
    let read = WorkerEvent::TableRead(vec![([1], None)]);
    assert_eq!(tell(&mut w, read), WorkerAction::WriteTable(4));
    assert_eq!(tell(&mut w, WorkerEvent::Done), WorkerAction::SyncDirectory);
    assert_eq!(tell(&mut w, WorkerEvent::Failed), WorkerAction::Wait);
}
