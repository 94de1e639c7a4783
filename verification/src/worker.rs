//! The background compaction of the sstables.
//!
//! The worker holds the sizes of the sstables and decides which of them are
//! merged. It does no input or output of its own: it is told what happened and
//! answers with the next thing to do.
use crate::config::Config;
use crate::directory::{
    increasing, lemma_increasing_unique, lemma_sorted_ids, listed, sorted_ids,
};
use crate::model::{overlay, overlay_entries};
use crate::ordered_map::{ascending, map_of, OrderedMap};
use crate::outside::{zstd_compressed, zstd_decompressed};
use crate::size::items_fit;
use crate::sstable::{sstable_bytes, sstable_len, write_sstable, Error};
use std::collections::BTreeMap;
use vstd::prelude::*;

verus! {

/// What the owner of the database tells the worker.
#[derive(Debug, Clone, Copy, PartialEq, Eq, Structural)]
pub enum WorkerMessage {
    /// An sstable was written.
    NewSST { id: u64, sst_sz: u64, db_sz: u64 },
    /// The worker is to end.
    Stop,
    /// The worker is asked whether it is there.
    Heartbeat,
}

/// The bytes that the sstables of some ids take together.
pub open spec fn size_sum(directory: Map<u64, u64>, ids: Seq<u64>) -> nat
    decreases ids.len(),
{
    if ids.len() == 0 {
        0
    } else {
        size_sum(directory, ids.drop_last()) + directory[ids.last()] as nat
    }
}

/// The sstables take more than `max_space_amp` times the room of the database,
/// and there are at least two of them.
pub open spec fn overgrown(directory: Map<u64, u64>, db_sz: u64, config: Config) -> bool {
    let ids = sorted_ids(directory.dom());
    &&& ids.len() > 1
    &&& size_sum(directory, ids) > config.max_space_amp * db_sz
}

/// There are `merge_window` sstables from position `i` on, and each of them has
/// at least 1/`merge_ratio` of the size of the first.
pub open spec fn mergeable(
    directory: Map<u64, u64>,
    ids: Seq<u64>,
    config: Config,
    i: int,
) -> bool {
    &&& 0 <= i <= ids.len() - config.merge_window
    &&& forall|j: int|
        i < j < i + config.merge_window ==> directory[#[trigger] ids[j]] * config.merge_ratio
            >= directory[ids[i]]
}

/// The first window of sstables, from position `i` on, that can be merged.
pub open spec fn first_window(
    directory: Map<u64, u64>,
    ids: Seq<u64>,
    config: Config,
    i: int,
) -> Option<Seq<u64>>
    decreases ids.len() - i,
{
    if i < 0 || i + config.merge_window > ids.len() || i >= ids.len() {
        None
    } else if mergeable(directory, ids, config, i) {
        Some(ids.subrange(i, i + config.merge_window))
    } else {
        first_window(directory, ids, config, i + 1)
    }
}

/// The sstables that are due to be merged into one: all of them where they
/// have outgrown the database, and else the first window that can be merged.
pub open spec fn due_run(directory: Map<u64, u64>, db_sz: u64, config: Config) -> Option<
    Seq<u64>,
> {
    let ids = sorted_ids(directory.dom());
    if overgrown(directory, db_sz, config) {
        Some(ids)
    } else {
        first_window(directory, ids, config, 0)
    }
}

/// The decision which sstables are due has an answer: windows without sstables
/// are not looked at.
pub open spec fn decidable(directory: Map<u64, u64>, db_sz: u64, config: Config) -> bool {
    config.merge_window == 0 ==> overgrown(directory, db_sz, config)
}

/// The sstables that are due are some of those in the directory, one after the
/// other in ascending order, and at least one.
pub proof fn law_due_run_is_a_window(directory: Map<u64, u64>, db_sz: u64, config: Config)
    requires
        directory.dom().finite(),
        decidable(directory, db_sz, config),
    ensures
        due_run(directory, db_sz, config) matches Some(run) ==> {
            &&& run.len() > 0
            &&& exists|i: int|
                0 <= i <= sorted_ids(directory.dom()).len() - run.len() && run == #[trigger] sorted_ids(
                    directory.dom(),
                ).subrange(i, i + run.len())
        },
{
    let ids = sorted_ids(directory.dom());
    lemma_sorted_ids(directory.dom());
    match due_run(directory, db_sz, config) {
        Some(run) => {
            if overgrown(directory, db_sz, config) {
                assert(run =~= ids.subrange(0, 0int + run.len()));
            } else {
                lemma_first_window(directory, ids, config, 0);
            }
        },
        None => {},
    }
}

/// What `first_window` finds is a window of `merge_window` sstables.
proof fn lemma_first_window(directory: Map<u64, u64>, ids: Seq<u64>, config: Config, i: int)
    requires
        0 <= i,
    ensures
        first_window(directory, ids, config, i) matches Some(run) ==> {
            &&& run.len() == config.merge_window
            &&& exists|j: int|
                0 <= j <= ids.len() - run.len() && run == #[trigger] ids.subrange(j, j + run.len())
        },
    decreases ids.len() - i,
{
    if i + config.merge_window <= ids.len() && i < ids.len() {
        if mergeable(directory, ids, config, i) {
            let run = ids.subrange(i, i + config.merge_window);
            assert(run == ids.subrange(i, i + run.len()));
        } else {
            lemma_first_window(directory, ids, config, i + 1);
        }
    }
}

/// The sstables that are due are all of at least two, or a whole window.
pub proof fn lemma_due_run_length(directory: Map<u64, u64>, db_sz: u64, config: Config)
    ensures
        due_run(directory, db_sz, config) matches Some(run) ==> run.len() >= 2 || run.len()
            == config.merge_window,
{
    lemma_first_window(directory, sorted_ids(directory.dom()), config, 0);
}

/// Adds up the sizes of the sstables.
fn total_size(tables: &Vec<(u64, u64)>, Ghost(directory): Ghost<Map<u64, u64>>) -> (r: u128)
    requires
        forall|i: int| 0 <= i < tables@.len() ==> tables@[i].1 == directory[(#[trigger] tables@[i]).0],
    ensures
        r == size_sum(directory, tables@.map_values(|table: (u64, u64)| table.0)),
{
    let ghost ids = tables@.map_values(|table: (u64, u64)| table.0);
    let mut r: u128 = 0;
    let mut i: usize = 0;
    while i < tables.len()
        invariant
            i <= tables.len(),
            ids == tables@.map_values(|table: (u64, u64)| table.0),
            forall|i: int|
                0 <= i < tables@.len() ==> tables@[i].1 == directory[(#[trigger] tables@[i]).0],
            r == size_sum(directory, ids.take(i as int)),
            r <= i * u64::MAX,
        decreases tables.len() - i,
    {
        assert(i * u64::MAX + u64::MAX == (i + 1) * u64::MAX) by (nonlinear_arith);
        assert((i + 1) * u64::MAX <= u64::MAX * u64::MAX) by (nonlinear_arith)
            requires
                i + 1 <= u64::MAX,
        ;
        assert(ids.take(i + 1).drop_last() =~= ids.take(i as int));
        r = r + tables[i].1 as u128;
        i = i + 1;
    }
    assert(ids.take(i as int) =~= ids);
    r
}

/// Whether the sstables have outgrown the database.
fn has_outgrown(directory: &BTreeMap<u64, u64>, db_sz: u64, config: &Config) -> (r: bool)
    ensures
        r == overgrown(directory@, db_sz, *config),
{
    let tables = listed(directory);
    let on_disk_size: u128 = total_size(&tables, Ghost(directory@));
    let amp: u64 = config.max_space_amp;
    assert(amp * db_sz <= u64::MAX * u64::MAX) by (nonlinear_arith)
        requires
            amp <= u64::MAX,
            db_sz <= u64::MAX,
    ;
    tables.len() > 1 && on_disk_size > amp as u128 * db_sz as u128
}

/// Whether the decision which sstables are due has an answer.
fn can_decide(directory: &BTreeMap<u64, u64>, db_sz: u64, config: &Config) -> (r: bool)
    ensures
        r == decidable(directory@, db_sz, *config),
{
    config.merge_window != 0 || has_outgrown(directory, db_sz, config)
}

/// Whether the window of sstables from position `i` on can be merged.
fn window_fits(
    tables: &Vec<(u64, u64)>,
    config: &Config,
    i: usize,
    Ghost(directory): Ghost<Map<u64, u64>>,
) -> (r: bool)
    requires
        i + config.merge_window <= tables.len(),
        i < tables.len(),
        forall|i: int| 0 <= i < tables@.len() ==> tables@[i].1 == directory[(#[trigger] tables@[i]).0],
    ensures
        r == mergeable(
            directory,
            tables@.map_values(|table: (u64, u64)| table.0),
            *config,
            i as int,
        ),
{
    let ghost ids = tables@.map_values(|table: (u64, u64)| table.0);
    let end: usize = i + config.merge_window;
    let mut j: usize = i;
    while j < end
        invariant
            i <= j <= end,
            end == i + config.merge_window,
            end <= tables@.len(),
            i < tables@.len(),
            ids == tables@.map_values(|table: (u64, u64)| table.0),
            forall|i: int|
                0 <= i < tables@.len() ==> tables@[i].1 == directory[(#[trigger] tables@[i]).0],
            forall|n: int|
                i < n < j ==> directory[#[trigger] ids[n]] * config.merge_ratio >= directory[ids[i as int]],
        decreases end - j,
    {
        assert(ids[j as int] == tables@[j as int].0);
        assert(ids[i as int] == tables@[i as int].0);
        let size: u64 = tables[j].1;
        assert(size * config.merge_ratio <= u64::MAX * u64::MAX) by (nonlinear_arith)
            requires
                size <= u64::MAX,
                config.merge_ratio <= u64::MAX,
        ;
        if j > i && (size as u128 * config.merge_ratio as u128) < tables[i].1 as u128 {
            assert(!(directory[ids[j as int]] * config.merge_ratio >= directory[ids[i as int]]));
            return false;
        }
        j = j + 1;
    }
    true
}

/// What the worker is in the middle of.
#[derive(Debug, Clone, Copy, PartialEq, Eq, Structural)]
pub enum Step {
    /// It looks whether there is a message.
    Polling,
    /// It waits for a message.
    Waiting,
    /// It reads the sstables of a run.
    Reading,
    /// It writes the merged sstable.
    Writing,
    /// It removes the sstables that were merged.
    Removing,
    /// It makes the removals durable.
    Syncing,
    /// It has ended.
    Stopped,
}

/// What happened to the last thing that the worker asked for.
pub enum WorkerEvent<const K: usize, const V: usize> {
    /// A message was there.
    Message(WorkerMessage),
    /// No message was there.
    Empty,
    /// No message can come any more.
    Disconnected,
    /// The sstable was read and holds these entries.
    TableRead(Vec<([u8; K], Option<[u8; V]>)>),
    /// It was done.
    Done,
    /// It failed.
    Failed,
}

/// What the worker asks for.
#[derive(Debug, Clone, Copy, PartialEq, Eq, Structural)]
pub enum WorkerAction {
    /// Look whether there is a message.
    Poll,
    /// Wait for a message.
    Wait,
    /// Read the sstable with this id.
    ReadTable(u64),
    /// Put the merged sstable in the place of the one with this id.
    WriteTable(u64),
    /// Remove the sstable with this id.
    RemoveTable(u64),
    /// Make the removals durable.
    SyncDirectory,
    /// End.
    Quit,
}

/// The abstract state of the worker.
#[verifier::ext_equal]
#[verifier::reject_recursive_types(K)]
pub struct WorkerState<const K: usize, const V: usize> {
    /// The size of each sstable.
    pub directory: Map<u64, u64>,
    /// The size of the database.
    pub db_sz: u64,
    pub config: Config,
    pub step: Step,
    /// The ids of the sstables that are being merged, in ascending order.
    pub run: Seq<u64>,
    /// The position in the run that the worker has come to.
    pub next: int,
    /// The last entry of each key in the sstables read so far.
    pub merged: Map<[u8; K], Option<[u8; V]>>,
}

impl<const K: usize, const V: usize> WorkerState<K, V> {
    pub open spec fn wf(self) -> bool {
        &&& self.directory.dom().finite()
        &&& increasing(self.run)
        &&& self.step is Reading || self.step is Writing || self.step is Removing ==> {
            &&& 0 <= self.next < self.run.len()
            &&& self.directory.contains_key(self.run.last())
            &&& forall|i: int|
                (if self.step is Removing { self.next } else { 0 }) <= i < self.run.len()
                    ==> self.directory.contains_key(#[trigger] self.run[i])
        }
        &&& self.step is Writing ==> self.next == 0
        &&& self.step is Removing ==> self.next < self.run.len() - 1
    }

    /// The state in which the worker has learned of a message.
    pub open spec fn told(self, message: WorkerMessage) -> Self {
        match message {
            WorkerMessage::NewSST { id, sst_sz, db_sz } => WorkerState {
                directory: self.directory.insert(id, sst_sz),
                db_sz,
                ..self
            },
            _ => self,
        }
    }

    /// The worker looks for sstables to merge, and waits where there are none.
    pub open spec fn maintained(self) -> Self {
        match due_run(self.directory, self.db_sz, self.config) {
            Some(run) => WorkerState {
                step: Step::Reading,
                run,
                next: 0,
                merged: Map::empty(),
                ..self
            },
            None => WorkerState { step: Step::Waiting, ..self },
        }
    }

    /// The size of the merged sstable.
    pub open spec fn merged_size(self) -> nat {
        sstable_len::<K, V>(self.merged.len())
    }

    /// The event can follow what the worker asked for, and what the worker does
    /// about it stays within the range of its numbers.
    pub open spec fn accepts(self, event: WorkerEvent<K, V>) -> bool {
        match (self.step, event) {
            (Step::Polling, WorkerEvent::Message(WorkerMessage::Stop)) => true,
            (Step::Polling, WorkerEvent::Message(message)) => decidable(
                self.told(message).directory,
                self.told(message).db_sz,
                self.config,
            ),
            (Step::Polling, WorkerEvent::Empty) => decidable(
                self.directory,
                self.db_sz,
                self.config,
            ),
            (Step::Polling, WorkerEvent::Disconnected) => true,
            (Step::Waiting, WorkerEvent::Message(_)) => true,
            (Step::Waiting, WorkerEvent::Disconnected) => true,
            (Step::Reading, WorkerEvent::TableRead(_)) => true,
            (Step::Reading, WorkerEvent::Failed) => true,
            (Step::Writing, WorkerEvent::Done) => self.merged_size() <= u64::MAX,
            (Step::Writing, WorkerEvent::Failed) => true,
            (Step::Removing, WorkerEvent::Done) => true,
            (Step::Removing, WorkerEvent::Failed) => true,
            (Step::Syncing, WorkerEvent::Done) => true,
            (Step::Syncing, WorkerEvent::Failed) => true,
            _ => false,
        }
    }

    /// The state after an event.
    pub open spec fn after(self, event: WorkerEvent<K, V>) -> Self {
        match (self.step, event) {
            (_, WorkerEvent::Message(WorkerMessage::Stop)) => WorkerState {
                step: Step::Stopped,
                ..self
            },
            (_, WorkerEvent::Disconnected) => WorkerState { step: Step::Stopped, ..self },
            (_, WorkerEvent::Failed) => WorkerState { step: Step::Waiting, ..self },
            (Step::Polling, WorkerEvent::Message(message)) => self.told(message).maintained(),
            (Step::Polling, _) => self.maintained(),
            (Step::Waiting, WorkerEvent::Message(message)) => WorkerState {
                step: Step::Polling,
                ..self.told(message)
            },
            (Step::Reading, WorkerEvent::TableRead(entries)) => {
                let last = self.next + 1 == self.run.len();
                WorkerState {
                    step: if last {
                        Step::Writing
                    } else {
                        Step::Reading
                    },
                    next: if last {
                        0
                    } else {
                        self.next + 1
                    },
                    merged: overlay(self.merged, entries@),
                    ..self
                }
            },
            (Step::Writing, _) => WorkerState {
                step: if self.run.len() == 1 {
                    Step::Syncing
                } else {
                    Step::Removing
                },
                directory: self.directory.insert(self.run.last(), self.merged_size() as u64),
                ..self
            },
            (Step::Removing, _) => {
                let last = self.next + 2 == self.run.len();
                WorkerState {
                    step: if last {
                        Step::Syncing
                    } else {
                        Step::Removing
                    },
                    next: self.next + 1,
                    directory: self.directory.remove(self.run[self.next]),
                    ..self
                }
            },
            _ => WorkerState { step: Step::Polling, ..self },
        }
    }

    /// What the worker asks for in this state.
    pub open spec fn action(self) -> WorkerAction {
        match self.step {
            Step::Polling => WorkerAction::Poll,
            Step::Waiting => WorkerAction::Wait,
            Step::Reading => WorkerAction::ReadTable(self.run[self.next]),
            Step::Writing => WorkerAction::WriteTable(self.run.last()),
            Step::Removing => WorkerAction::RemoveTable(self.run[self.next]),
            Step::Syncing => WorkerAction::SyncDirectory,
            Step::Stopped => WorkerAction::Quit,
        }
    }
}

/// What an event leads to is a valid state again.
pub proof fn lemma_worker_stays_valid<const K: usize, const V: usize>(
    worker: WorkerState<K, V>,
    event: WorkerEvent<K, V>,
)
    requires
        worker.wf(),
        worker.accepts(event),
    ensures
        worker.after(event).wf(),
{
    match (worker.step, event) {
        (Step::Polling, WorkerEvent::Message(message)) => {
            if !(message is Stop) {
                lemma_maintained_stays_valid(worker.told(message));
            }
        },
        (Step::Polling, WorkerEvent::Empty) => {
            lemma_maintained_stays_valid(worker);
        },
        _ => {},
    }
}

/// The sstables that are due are in the directory, in ascending order.
proof fn lemma_maintained_stays_valid<const K: usize, const V: usize>(worker: WorkerState<K, V>)
    requires
        worker.directory.dom().finite(),
        increasing(worker.run),
        decidable(worker.directory, worker.db_sz, worker.config),
    ensures
        worker.maintained().wf(),
        worker.maintained().step is Reading ==> worker.maintained().run.len() > 0,
{
    lemma_sorted_ids(worker.directory.dom());
    law_due_run_is_a_window(worker.directory, worker.db_sz, worker.config);
    if let Some(run) = due_run(worker.directory, worker.db_sz, worker.config) {
        let ids = sorted_ids(worker.directory.dom());
        let i = choose|i: int|
            0 <= i <= ids.len() - run.len() && run == #[trigger] ids.subrange(i, i + run.len());
        assert forall|j: int| 0 <= j < run.len() implies worker.directory.contains_key(
            #[trigger] run[j],
        ) by {
            assert(ids.to_set().contains(ids[i + j]));
        }
    }
}

/// The background compactor.
pub struct Worker<const K: usize, const V: usize> {
    sstable_directory: BTreeMap<u64, u64>,
    db_sz: u64,
    config: Config,
    step: Step,
    run: Vec<u64>,
    next: usize,
    merged: OrderedMap<K, Option<[u8; V]>>,
}

impl<const K: usize, const V: usize> View for Worker<K, V> {
    type V = WorkerState<K, V>;

    closed spec fn view(&self) -> WorkerState<K, V> {
        WorkerState {
            directory: self.sstable_directory@,
            db_sz: self.db_sz,
            config: self.config,
            step: self.step,
            run: self.run@,
            next: self.next as int,
            merged: self.merged@,
        }
    }
}

impl<const K: usize, const V: usize> Worker<K, V> {
    pub open spec fn wf(self) -> bool {
        &&& self@.wf()
        &&& self.merged_wf()
    }

    /// The map of the merged entries is well formed.
    pub closed spec fn merged_wf(self) -> bool {
        self.merged.wf()
    }

    /// The entries of the merged sstable, in ascending key order.
    pub closed spec fn merged_entries(self) -> Seq<([u8; K], Option<[u8; V]>)> {
        self.merged.spec_entries()
    }

    /// A worker for a directory of sstables, which is to look for a message
    /// first.
    pub fn new(sstable_directory: BTreeMap<u64, u64>, db_sz: u64, config: Config) -> (r: Self)
        ensures
            r.wf(),
            r@ == (WorkerState::<K, V> {
                directory: sstable_directory@,
                db_sz,
                config,
                step: Step::Polling,
                run: Seq::empty(),
                next: 0,
                merged: Map::empty(),
            }),
    {
        broadcast use vstd::std_specs::btree::group_btree_axioms;

        Worker {
            sstable_directory,
            db_sz,
            config,
            step: Step::Polling,
            run: Vec::new(),
            next: 0,
            merged: OrderedMap::new(),
        }
    }

    /// Decides which sstables are to be merged, if any.
    pub fn sstable_maintenance(&self) -> (r: Option<Vec<u64>>)
        requires
            self.wf(),
            decidable(self@.directory, self@.db_sz, self@.config),
        ensures
            match r {
                Some(run) => due_run(self@.directory, self@.db_sz, self@.config) == Some(run@),
                None => due_run(self@.directory, self@.db_sz, self@.config) is None,
            },
    {
        let tables = listed(&self.sstable_directory);
        let ghost directory = self.sstable_directory@;
        let ghost ids = tables@.map_values(|table: (u64, u64)| table.0);
        if has_outgrown(&self.sstable_directory, self.db_sz, &self.config) {
            return Some(ids_between(&tables, 0, tables.len()));
        }
        let mut i: usize = 0;
        while i < tables.len() && self.config.merge_window <= tables.len() - i
            invariant
                i <= tables.len(),
                self.config.merge_window > 0,
                directory == self.sstable_directory@,
                ids == tables@.map_values(|table: (u64, u64)| table.0),
                forall|i: int|
                    0 <= i < tables@.len() ==> tables@[i].1 == directory[(#[trigger] tables@[i]).0],
                first_window(directory, ids, self.config, 0) == first_window(
                    directory,
                    ids,
                    self.config,
                    i as int,
                ),
                due_run(self@.directory, self@.db_sz, self@.config) == first_window(
                    directory,
                    ids,
                    self.config,
                    0,
                ),
            decreases tables.len() - i,
        {
            if window_fits(&tables, &self.config, i, Ghost(directory)) {
                return Some(ids_between(&tables, i, i + self.config.merge_window));
            }
            i = i + 1;
        }
        None
    }

    /// The next thing to do in the middle of a compaction, after what was asked
    /// for was done or has failed.
    ///
    /// The sstables of the run are read from the oldest to the newest and their
    /// entries are merged, the newer over the older. The merged sstable takes
    /// the place of the newest; then the others are removed.
    pub fn compact_sstable_run(&mut self, event: WorkerEvent<K, V>) -> (r: WorkerAction)
        requires
            old(self).wf(),
            old(self)@.accepts(event),
            !(old(self)@.step is Polling),
            !(old(self)@.step is Waiting),
        ensures
            final(self).wf(),
            final(self)@ == old(self)@.after(event),
            r == final(self)@.action(),
    {
        broadcast use vstd::std_specs::btree::group_btree_axioms;

        match event {
            WorkerEvent::TableRead(entries) => {
                overlay_entries(&mut self.merged, &entries);
                let len: usize = self.run.len();
                if self.next + 1 == len {
                    self.step = Step::Writing;
                    self.next = 0;
                    WorkerAction::WriteTable(self.run[self.run.len() - 1])
                } else {
                    self.next = self.next + 1;
                    WorkerAction::ReadTable(self.run[self.next])
                }
            },
            WorkerEvent::Done => {
                match self.step {
                    Step::Writing => {
                        let len: u128 = self.merged.len() as u128;
                        let sst_sz: u64 = (8 + len * (5 + K as u128 + V as u128)) as u64;
                        self.sstable_directory.insert(self.run[self.run.len() - 1], sst_sz);
                        if self.run.len() == 1 {
                            self.step = Step::Syncing;
                            WorkerAction::SyncDirectory
                        } else {
                            self.step = Step::Removing;
                            WorkerAction::RemoveTable(self.run[0])
                        }
                    },
                    Step::Removing => {
                        let len: usize = self.run.len();
                        self.sstable_directory.remove(&self.run[self.next]);
                        self.next = self.next + 1;
                        if self.next + 1 == len {
                            self.step = Step::Syncing;
                            WorkerAction::SyncDirectory
                        } else {
                            WorkerAction::RemoveTable(self.run[self.next])
                        }
                    },
                    _ => {
                        self.step = Step::Polling;
                        WorkerAction::Poll
                    },
                }
            },
            _ => {
                self.step = Step::Waiting;
                WorkerAction::Wait
            },
        }
    }

    /// The next thing to do, after what was asked for last has come to `event`.
    ///
    /// Between compactions the worker takes messages as they come; when there
    /// is none and nothing is due, it waits for one.
    pub fn run(&mut self, event: WorkerEvent<K, V>) -> (r: WorkerAction)
        requires
            old(self).wf(),
            old(self)@.accepts(event),
        ensures
            final(self).wf(),
            final(self)@ == old(self)@.after(event),
            r == final(self)@.action(),
    {
        broadcast use vstd::std_specs::btree::group_btree_axioms;

        match self.step {
            Step::Polling | Step::Waiting => {
                match event {
                    WorkerEvent::Message(WorkerMessage::NewSST { id, sst_sz, db_sz }) => {
                        self.db_sz = db_sz;
                        self.sstable_directory.insert(id, sst_sz);
                    },
                    WorkerEvent::Message(WorkerMessage::Stop) | WorkerEvent::Disconnected => {
                        self.step = Step::Stopped;
                        return WorkerAction::Quit;
                    },
                    _ => {},
                }
                if self.step == Step::Waiting {
                    self.step = Step::Polling;
                    return WorkerAction::Poll;
                }
                let due = self.sstable_maintenance();
                proof {
                    lemma_maintained_stays_valid(self@);
                }
                match due {
                    Some(run) => {
                        let first: u64 = run[0];
                        self.step = Step::Reading;
                        self.run = run;
                        self.next = 0;
                        self.merged = OrderedMap::new();
                        WorkerAction::ReadTable(first)
                    },
                    None => {
                        self.step = Step::Waiting;
                        WorkerAction::Wait
                    },
                }
            },
            _ => self.compact_sstable_run(event),
        }
    }

    /// Whether the event can come now.
    pub fn accepts(&self, event: &WorkerEvent<K, V>) -> (r: bool)
        requires
            self.wf(),
        ensures
            r == self@.accepts(*event),
    {
        broadcast use vstd::std_specs::btree::group_btree_axioms;

        match (self.step, event) {
            (
                Step::Polling,
                WorkerEvent::Message(WorkerMessage::NewSST { id, sst_sz, db_sz }),
            ) => {
                let mut directory = self.sstable_directory.clone();
                directory.insert(*id, *sst_sz);
                can_decide(&directory, *db_sz, &self.config)
            },
            (Step::Polling, WorkerEvent::Message(WorkerMessage::Heartbeat)) => {
                can_decide(&self.sstable_directory, self.db_sz, &self.config)
            },
            (Step::Polling, WorkerEvent::Empty) => {
                can_decide(&self.sstable_directory, self.db_sz, &self.config)
            },
            (Step::Polling, WorkerEvent::Message(_)) => true,
            (Step::Polling, WorkerEvent::Disconnected) => true,
            (Step::Waiting, WorkerEvent::Message(_)) => true,
            (Step::Waiting, WorkerEvent::Disconnected) => true,
            (Step::Reading, WorkerEvent::TableRead(_)) => true,
            (Step::Reading, WorkerEvent::Failed) => true,
            (Step::Writing, WorkerEvent::Done) => {
                items_fit(self.merged.len(), 5 + K as u128 + V as u128, u64::MAX - 8)
            },
            (Step::Writing, WorkerEvent::Failed) => true,
            (Step::Removing, WorkerEvent::Done) => true,
            (Step::Removing, WorkerEvent::Failed) => true,
            (Step::Syncing, WorkerEvent::Done) => true,
            (Step::Syncing, WorkerEvent::Failed) => true,
            _ => false,
        }
    }

    /// The file contents of the merged sstable.
    pub fn merged_sstable(&self) -> (r: Result<Vec<u8>, Error>)
        requires
            self.wf(),
        ensures
            match r {
                Ok(file) => {
                    &&& file@ == zstd_compressed(
                        sstable_bytes(self.merged_entries()),
                        self@.config.zstd_sstable_compression_level as i32,
                    )
                    &&& zstd_decompressed(file@) == sstable_bytes(self.merged_entries())
                },
                Err(e) => e is Zstd,
            },
            ascending(self.merged_entries()),
            map_of(self.merged_entries()) == self@.merged,
    {
        proof {
            self.merged.lemma_entries_ascend();
        }
        write_sstable(&self.merged, &self.config)
    }
}

/// The ids at the positions from `start` up to `end`.
fn ids_between(tables: &Vec<(u64, u64)>, start: usize, end: usize) -> (r: Vec<u64>)
    requires
        start <= end <= tables.len(),
    ensures
        r@ == tables@.map_values(|table: (u64, u64)| table.0).subrange(start as int, end as int),
        start == 0 && end == tables.len() ==> r@ == tables@.map_values(
            |table: (u64, u64)| table.0,
        ),
{
    let ghost ids = tables@.map_values(|table: (u64, u64)| table.0);
    let mut r: Vec<u64> = Vec::new();
    let mut i: usize = start;
    while i < end
        invariant
            start <= i <= end <= tables.len(),
            ids == tables@.map_values(|table: (u64, u64)| table.0),
            r@ == ids.subrange(start as int, i as int),
        decreases end - i,
    {
        r.push(tables[i].0);
        i = i + 1;
        assert(r@ =~= ids.subrange(start as int, i as int));
    }
    r
}

/// The bytes that all sstables of a directory take: none if there are none, and
/// with one more sstable as many more as it has.
pub proof fn law_total_size(directory: Map<u64, u64>, id: u64, size: u64)
    requires
        directory.dom().finite(),
        !directory.contains_key(id),
    ensures
        size_sum(Map::empty(), sorted_ids(Map::<u64, u64>::empty().dom())) == 0,
        size_sum(directory.insert(id, size), sorted_ids(directory.insert(id, size).dom()))
            == size_sum(directory, sorted_ids(directory.dom())) + size,
{
    let new = directory.insert(id, size);
    let ids = sorted_ids(new.dom());
    lemma_sorted_ids(Map::<u64, u64>::empty().dom());
    lemma_sorted_ids(directory.dom());
    lemma_sorted_ids(new.dom());
    assert(new.contains_key(id));
    assert(ids.to_set().contains(id));
    let k = choose|k: int| 0 <= k < ids.len() && ids[k] == id;
    let rest = ids.remove(k);
    assert forall|i: int, j: int| 0 <= i < j < rest.len() implies rest[i] < rest[j] by {
        let a = if i < k {
            i
        } else {
            i + 1
        };
        let b = if j < k {
            j
        } else {
            j + 1
        };
        assert(rest[i] == ids[a] && rest[j] == ids[b]);
    }
    assert forall|other: u64| rest.to_set().contains(other) <==> directory.dom().contains(
        other,
    ) by {
        if rest.contains(other) {
            let i = choose|i: int| 0 <= i < rest.len() && rest[i] == other;
            let a = if i < k {
                i
            } else {
                i + 1
            };
            assert(rest[i] == ids[a]);
            assert(ids.to_set().contains(ids[a]));
            assert(ids[a] != id);
        }
        if directory.contains_key(other) {
            assert(ids.to_set().contains(other));
            let a = choose|a: int| 0 <= a < ids.len() && ids[a] == other;
            let i = if a < k {
                a
            } else {
                a - 1
            };
            assert(rest[i] == other);
        }
    }
    assert(rest.to_set() =~= directory.dom());
    lemma_increasing_unique(rest, sorted_ids(directory.dom()));
    lemma_size_sum_without(new, ids, k);
    assert forall|i: int| 0 <= i < rest.len() implies new[#[trigger] rest[i]] == directory[rest[i]] by {
        assert(rest.to_set().contains(rest[i]));
        assert(directory.contains_key(rest[i]));
    }
    lemma_size_sum_same(new, directory, rest);
}

/// Without one sstable there are as many bytes less as it has.
proof fn lemma_size_sum_without(directory: Map<u64, u64>, ids: Seq<u64>, k: int)
    requires
        0 <= k < ids.len(),
    ensures
        size_sum(directory, ids) == size_sum(directory, ids.remove(k)) + directory[ids[k]],
    decreases ids.len(),
{
    let front = ids.drop_last();
    if k == ids.len() - 1 {
        assert(ids.remove(k) =~= front);
    } else {
        lemma_size_sum_without(directory, front, k);
        assert(ids.remove(k).drop_last() =~= front.remove(k));
        assert(ids.remove(k).last() == ids.last());
    }
}

/// Only the sizes of the sstables that are added up count.
proof fn lemma_size_sum_same(a: Map<u64, u64>, b: Map<u64, u64>, ids: Seq<u64>)
    requires
        forall|i: int| 0 <= i < ids.len() ==> a[#[trigger] ids[i]] == b[ids[i]],
    ensures
        size_sum(a, ids) == size_sum(b, ids),
    decreases ids.len(),
{
    if ids.len() > 0 {
        let front = ids.drop_last();
        assert forall|i: int| 0 <= i < front.len() implies a[#[trigger] front[i]] == b[front[i]] by {
            assert(front[i] == ids[i]);
        }
        assert(a[ids[ids.len() - 1]] == b[ids[ids.len() - 1]]);
        lemma_size_sum_same(a, b, front);
    }
}

/// Some sstable among the `window` ones from position `k` on, but the first of
/// them, has less than 1/`ratio` of the size of the first.
pub open spec fn has_a_small_one(
    directory: Map<u64, u64>,
    ids: Seq<u64>,
    window: int,
    ratio: u64,
    k: int,
) -> bool {
    exists|j: int|
        k < j < k + window && directory[#[trigger] ids[j]] * ratio < directory[ids[k]]
}

/// What is merged: all sstables, if there are at least two and they take more
/// than `max_space_amp` times the room of the database. Else the first
/// `merge_window` sstables in a row of which each has at least 1/`merge_ratio`
/// of the size of the first; and none, if in all rows of that length some
/// sstable is too small.
pub proof fn law_what_is_due(directory: Map<u64, u64>, db_sz: u64, config: Config)
    requires
        directory.dom().finite(),
        config.merge_window > 0 || (directory.dom().len() > 1 && size_sum(
            directory,
            sorted_ids(directory.dom()),
        ) > config.max_space_amp * db_sz),
    ensures
        ({
            let ids = sorted_ids(directory.dom());
            let window = config.merge_window as int;
            let full = directory.dom().len() > 1 && size_sum(directory, ids)
                > config.max_space_amp * db_sz;
            &&& full ==> due_run(directory, db_sz, config) == Some(ids)
            &&& !full ==> match due_run(directory, db_sz, config) {
                Some(run) => {
                    &&& run.len() == window
                    &&& window > 0
                    &&& forall|j: int|
                        0 < j < window ==> directory[#[trigger] run[j]] * config.merge_ratio
                            >= directory[run[0]]
                    &&& exists|i: int|
                        0 <= i <= ids.len() - window && run == #[trigger] ids.subrange(
                            i,
                            i + window,
                        ) && forall|k: int|
                            0 <= k < i ==> #[trigger] has_a_small_one(
                                directory,
                                ids,
                                window,
                                config.merge_ratio,
                                k,
                            )
                },
                None => forall|k: int|
                    0 <= k <= ids.len() - window ==> #[trigger] has_a_small_one(
                        directory,
                        ids,
                        window,
                        config.merge_ratio,
                        k,
                    ),
            }
        }),
{
    let ids = sorted_ids(directory.dom());
    lemma_sorted_ids(directory.dom());
    if !overgrown(directory, db_sz, config) {
        lemma_first_like_window(directory, ids, config, 0);
    }
}

/// What `first_window` finds from a position on.
proof fn lemma_first_like_window(directory: Map<u64, u64>, ids: Seq<u64>, config: Config, from: int)
    requires
        0 <= from,
        config.merge_window > 0,
    ensures
        ({
            let window = config.merge_window as int;
            match first_window(directory, ids, config, from) {
                Some(run) => {
                    &&& run.len() == window
                    &&& forall|j: int|
                        0 < j < window ==> directory[#[trigger] run[j]] * config.merge_ratio
                            >= directory[run[0]]
                    &&& exists|i: int|
                        from <= i <= ids.len() - window && run == #[trigger] ids.subrange(
                            i,
                            i + window,
                        ) && forall|k: int|
                            from <= k < i ==> #[trigger] has_a_small_one(
                                directory,
                                ids,
                                window,
                                config.merge_ratio,
                                k,
                            )
                },
                None => forall|k: int|
                    from <= k <= ids.len() - window ==> #[trigger] has_a_small_one(
                        directory,
                        ids,
                        window,
                        config.merge_ratio,
                        k,
                    ),
            }
        }),
    decreases ids.len() - from,
{
    let window = config.merge_window as int;
    if from + window <= ids.len() {
        if mergeable(directory, ids, config, from) {
            let run = ids.subrange(from, from + window);
            assert forall|j: int| 0 < j < window implies directory[#[trigger] run[j]]
                * config.merge_ratio >= directory[run[0]] by {
                assert(run[j] == ids[from + j]);
            }
            assert(run == ids.subrange(from, from + window));
        } else {
            let j = choose|j: int|
                from < j < from + window && !(directory[#[trigger] ids[j]] * config.merge_ratio
                    >= directory[ids[from]]);
            assert(directory[ids[j]] * config.merge_ratio < directory[ids[from]]);
            assert(has_a_small_one(directory, ids, window, config.merge_ratio, from));
            lemma_first_like_window(directory, ids, config, from + 1);
            if let Some(run) = first_window(directory, ids, config, from + 1) {
                let i = choose|i: int|
                    from + 1 <= i <= ids.len() - window && run == #[trigger] ids.subrange(
                        i,
                        i + window,
                    ) && forall|k: int|
                        from + 1 <= k < i ==> #[trigger] has_a_small_one(
                            directory,
                            ids,
                            window,
                            config.merge_ratio,
                            k,
                        );
                assert(run == ids.subrange(i, i + window));
            }
        }
    }
}

/// A notice of a new sstable is taken in, whether the worker polls or waits:
/// the sstable counts with its size, and the database with the size that the
/// notice tells.
pub proof fn law_notice_is_taken_in<const K: usize, const V: usize>(
    worker: WorkerState<K, V>,
    id: u64,
    sst_sz: u64,
    db_sz: u64,
)
    requires
        worker.step is Polling || worker.step is Waiting,
    ensures
        ({
            let next = worker.after(
                WorkerEvent::Message(WorkerMessage::NewSST { id, sst_sz, db_sz }),
            );
            &&& next.db_sz == db_sz
            &&& next.directory == worker.directory.insert(id, sst_sz)
            &&& next.config == worker.config
        }),
{
}

/// Nothing but a notice of a new sstable changes the size that the database
/// counts with; and while the worker polls or waits, nothing else changes the
/// directory. The options never change.
pub proof fn law_only_notices_tell_sizes<const K: usize, const V: usize>(
    worker: WorkerState<K, V>,
    event: WorkerEvent<K, V>,
)
    requires
        worker.accepts(event),
        !(event matches WorkerEvent::Message(message) && message is NewSST),
    ensures
        worker.after(event).db_sz == worker.db_sz,
        worker.after(event).config == worker.config,
        worker.step is Polling || worker.step is Waiting ==> worker.after(event).directory
            == worker.directory,
{
}

/// While it polls, the worker decides by what it has been told, whatever came:
/// it reads the first sstable that is due, or waits if none is. Only a stop or
/// the end of the messages makes it quit.
pub proof fn law_the_worker_decides_by_what_it_was_told<const K: usize, const V: usize>(
    worker: WorkerState<K, V>,
    event: WorkerEvent<K, V>,
)
    requires
        worker.wf(),
        worker.step is Polling,
        worker.accepts(event),
    ensures
        ({
            let next = worker.after(event);
            let quits = event is Disconnected || (event matches WorkerEvent::Message(message)
                && message is Stop);
            &&& quits <==> next.action() == WorkerAction::Quit
            &&& !quits ==> match due_run(next.directory, next.db_sz, next.config) {
                Some(run) => next.action() == WorkerAction::ReadTable(run[0]) && next.run == run
                    && next.next == 0 && next.merged == Map::<[u8; K], Option<[u8; V]>>::empty(),
                None => next.action() == WorkerAction::Wait,
            }
        }),
{
}

/// While it waits, the worker looks for more after each message, unless it is to
/// stop or no message can come any more.
pub proof fn law_the_worker_wakes_up<const K: usize, const V: usize>(
    worker: WorkerState<K, V>,
    event: WorkerEvent<K, V>,
)
    requires
        worker.step is Waiting,
        worker.accepts(event),
    ensures
        ({
            let quits = event is Disconnected || (event matches WorkerEvent::Message(message)
                && message is Stop);
            worker.after(event).action() == if quits {
                WorkerAction::Quit
            } else {
                WorkerAction::Poll
            }
        }),
{
}

/// After something has failed in a compaction, the worker waits.
pub proof fn law_the_worker_waits_after_a_failure<const K: usize, const V: usize>(
    worker: WorkerState<K, V>,
)
    requires
        worker.accepts(WorkerEvent::Failed),
    ensures
        worker.after(WorkerEvent::Failed).action() == WorkerAction::Wait,
        worker.after(WorkerEvent::Failed).directory == worker.directory,
{
}

/// Whatever can come of what the worker asks for can be told to it: a message,
/// none, or no more when it polls; a message or no more when it waits; and done
/// or failed in a compaction. Only windows without sstables and sizes beyond 64
/// bits are excluded.
pub proof fn law_the_worker_takes_what_can_come<const K: usize, const V: usize>(
    worker: WorkerState<K, V>,
    message: WorkerMessage,
    entries: Vec<([u8; K], Option<[u8; V]>)>,
)
    ensures
        worker.step is Polling ==> worker.accepts(WorkerEvent::Disconnected) && worker.accepts(
            WorkerEvent::Message(WorkerMessage::Stop),
        ),
        worker.step is Polling && worker.config.merge_window > 0 ==> worker.accepts(
            WorkerEvent::Empty,
        ) && worker.accepts(WorkerEvent::Message(message)),
        worker.step is Waiting ==> worker.accepts(WorkerEvent::Disconnected) && worker.accepts(
            WorkerEvent::Message(message),
        ),
        worker.step is Reading ==> worker.accepts(WorkerEvent::TableRead(entries))
            && worker.accepts(WorkerEvent::Failed),
        worker.step is Writing ==> worker.accepts(WorkerEvent::Failed) && (8 + worker.merged.len()
            * (5 + K + V) <= u64::MAX ==> worker.accepts(WorkerEvent::Done)),
        worker.step is Removing || worker.step is Syncing ==> worker.accepts(WorkerEvent::Done)
            && worker.accepts(WorkerEvent::Failed),
{
}

/// Nothing else than what can come of what the worker asks for can be told to
/// it, nor anything that it has no answer to: a size beyond 64 bits, or a look
/// for windows without sstables.
pub proof fn law_the_worker_takes_nothing_else<const K: usize, const V: usize>(
    worker: WorkerState<K, V>,
    event: WorkerEvent<K, V>,
)
    requires
        worker.directory.dom().finite(),
        worker.accepts(event),
    ensures
        match worker.action() {
            WorkerAction::Poll => event is Message || event is Empty || event is Disconnected,
            WorkerAction::Wait => event is Message || event is Disconnected,
            WorkerAction::ReadTable(_) => event is TableRead || event is Failed,
            WorkerAction::WriteTable(_) => event is Failed || (event is Done && 8
                + worker.merged.len() * (5 + K + V) <= u64::MAX),
            WorkerAction::RemoveTable(_) | WorkerAction::SyncDirectory => event is Done
                || event is Failed,
            WorkerAction::Quit => false,
        },
        worker.action() is Poll && !(worker.after(event).action() is Quit)
            && worker.config.merge_window == 0 ==> {
            let directory = worker.after(event).directory;
            &&& directory.dom().len() > 1
            &&& size_sum(directory, sorted_ids(directory.dom())) > worker.config.max_space_amp
                * worker.after(event).db_sz
        },
{
    if worker.action() is Poll {
        lemma_sorted_ids(worker.after(event).directory.dom());
    }
}

} // verus!
