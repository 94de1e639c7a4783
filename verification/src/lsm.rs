//! The database.
//!
//! All data is held in memory. A write first goes to the log; when the log has
//! grown too long, what was logged since the last time becomes an sstable and
//! the log starts anew. This type does no input or output of its own: an
//! operation answers with the first thing to do, and goes on from there when
//! it is told how that went.
use crate::config::{default_config, Config};
use crate::directory::{increasing, lemma_sorted_ids, sorted_ids};
use crate::disk::{
    by_id, contents, ids_of, is_last_of_its_key, law_sizes, lemma_by_id, silent_on, sizes, stored,
};
use crate::model::{
    apply, law_last_entry_decides, law_untouched_key_stays, overlay, overlay_entries,
    replay_entries, replay_tables,
};
use crate::ordered_map::{ascending, map_of, OrderedMap};
use crate::outside::{zstd_compressed, zstd_decompressed};
use crate::record::{
    intact_len, lemma_intact_len, push_record, read_records, record_bytes, record_len, records_of,
    HEADER_LEN,
};
use crate::size::items_fit;
use crate::sstable::{
    from_le64, law_sstable_read_back, lemma_from_le64, read_sstable, sstable_bytes, sstable_len,
    write_sstable, Error, COUNT_LEN,
};
use crate::worker::{Step, Worker, WorkerMessage, WorkerState};
use std::collections::BTreeMap;
use vstd::prelude::*;

verus! {

/// What the database is in the middle of.
#[derive(Debug, Clone, Copy, PartialEq, Eq, Structural)]
pub enum Phase {
    /// Nothing: an operation can start.
    Idle,
    /// A record is being appended to the log.
    Logging,
    /// The log is being made durable.
    Syncing,
    /// The memtable is being written to an sstable.
    Writing,
    /// The log is being emptied.
    Truncating,
}

/// What the database asks for, or how an operation has ended.
pub enum LsmAction<const V: usize> {
    /// Append these bytes to the log.
    AppendLog(Vec<u8>),
    /// Make the log durable.
    SyncLog,
    /// Write the memtable to the sstable with this id, and make it durable.
    WriteSstable(u64),
    /// Tell the worker of the new sstable, and then empty the log.
    TruncateLog(WorkerMessage),
    /// The operation is done. For an insertion or a removal, this is the value
    /// that the key had before.
    Done(Option<[u8; V]>),
    /// The operation has failed.
    Failed,
}

/// The abstract state of the database.
#[verifier::ext_equal]
#[verifier::reject_recursive_types(K)]
pub struct LsmState<const K: usize, const V: usize> {
    /// The last entry of each key that was logged since the last sstable.
    pub memtable: Map<[u8; K], Option<[u8; V]>>,
    /// The data.
    pub db: Map<[u8; K], [u8; V]>,
    /// The id of the next sstable.
    pub next_sstable_id: u64,
    /// The length of the log.
    pub dirty_bytes: usize,
    pub config: Config,
    pub phase: Phase,
    /// The entry of the insertion or removal that is going on.
    pub pending: Option<([u8; K], Option<[u8; V]>)>,
}

impl<const K: usize, const V: usize> LsmState<K, V> {
    pub open spec fn wf(self) -> bool {
        &&& self.phase is Idle ==> self.pending is None
        &&& self.phase is Logging ==> self.pending is Some
        &&& self.phase is Truncating ==> self.memtable == Map::<[u8; K], Option<[u8; V]>>::empty()
    }

    /// An insertion or removal starts.
    pub open spec fn mutating(self, key: [u8; K], value: Option<[u8; V]>) -> Self {
        LsmState { phase: Phase::Logging, pending: Some((key, value)), ..self }
    }

    /// A flush starts.
    pub open spec fn flushing(self) -> Self {
        LsmState { phase: Phase::Syncing, ..self }
    }

    /// The log is too long.
    pub open spec fn log_is_full(self) -> bool {
        self.dirty_bytes > self.config.max_log_length
    }

    /// The entry of the operation has been appended to the log.
    pub open spec fn logged(self) -> Self {
        let entry = self.pending->0;
        LsmState {
            memtable: self.memtable.insert(entry.0, entry.1),
            dirty_bytes: (self.dirty_bytes + record_len::<K, V>()) as usize,
            ..self
        }
    }

    /// What the worker is told of an sstable made of the memtable.
    pub open spec fn notice(self) -> WorkerMessage {
        WorkerMessage::NewSST {
            id: self.next_sstable_id,
            sst_sz: sstable_len::<K, V>(self.memtable.len()) as u64,
            db_sz: (self.db.len() * (K + V)) as u64,
        }
    }

    /// The operation ends well.
    pub open spec fn finished(self) -> (Self, LsmAction<V>) {
        match self.pending {
            Some(entry) => (
                LsmState { phase: Phase::Idle, pending: None, db: apply(self.db, entry), ..self },
                LsmAction::Done(self.db.get(entry.0)),
            ),
            None => (LsmState { phase: Phase::Idle, ..self }, LsmAction::Done(None)),
        }
    }

    /// The operation goes on after what was asked for has been done, or ends
    /// after it has failed.
    pub open spec fn resumed(self, ok: bool) -> (Self, LsmAction<V>) {
        if !ok {
            (LsmState { phase: Phase::Idle, pending: None, ..self }, LsmAction::Failed)
        } else {
            match self.phase {
                Phase::Idle => (self, LsmAction::Failed),
                Phase::Logging => if self.logged().log_is_full() {
                    (LsmState { phase: Phase::Syncing, ..self.logged() }, LsmAction::SyncLog)
                } else {
                    self.logged().finished()
                },
                Phase::Syncing => if self.log_is_full() {
                    (
                        LsmState { phase: Phase::Writing, ..self },
                        LsmAction::WriteSstable(self.next_sstable_id),
                    )
                } else {
                    self.finished()
                },
                Phase::Writing => (
                    LsmState {
                        phase: Phase::Truncating,
                        memtable: Map::empty(),
                        next_sstable_id: (self.next_sstable_id + 1) as u64,
                        ..self
                    },
                    LsmAction::TruncateLog(self.notice()),
                ),
                Phase::Truncating => (LsmState { dirty_bytes: 0, ..self }).finished(),
            }
        }
    }

    /// An operation is going on, and its next step stays within the range of
    /// the numbers.
    pub open spec fn accepts(self, ok: bool) -> bool {
        &&& !(self.phase is Idle)
        &&& ok && self.phase is Logging ==> self.dirty_bytes + record_len::<K, V>()
            <= usize::MAX
        &&& ok && self.phase is Writing ==> {
            &&& self.next_sstable_id < u64::MAX
            &&& sstable_len::<K, V>(self.memtable.len()) <= u64::MAX
            &&& self.db.len() * (K + V) <= u64::MAX
        }
    }
}

/// The database.
pub struct Lsm<const K: usize, const V: usize> {
    memtable: OrderedMap<K, Option<[u8; V]>>,
    db: OrderedMap<K, [u8; V]>,
    next_sstable_id: u64,
    dirty_bytes: usize,
    config: Config,
    phase: Phase,
    pending: Option<([u8; K], Option<[u8; V]>)>,
}

impl<const K: usize, const V: usize> View for Lsm<K, V> {
    type V = LsmState<K, V>;

    closed spec fn view(&self) -> LsmState<K, V> {
        LsmState {
            memtable: self.memtable@,
            db: self.db@,
            next_sstable_id: self.next_sstable_id,
            dirty_bytes: self.dirty_bytes,
            config: self.config,
            phase: self.phase,
            pending: self.pending,
        }
    }
}

impl<const K: usize, const V: usize> Lsm<K, V> {
    pub open spec fn wf(self) -> bool {
        &&& self@.wf()
        &&& self.maps_wf()
    }

    /// The maps of the memtable and of the data are well formed.
    pub closed spec fn maps_wf(self) -> bool {
        &&& self.memtable.wf()
        &&& self.db.wf()
    }

    /// The entries of the memtable, in ascending key order.
    pub closed spec fn memtable_entries(self) -> Seq<([u8; K], Option<[u8; V]>)> {
        self.memtable.spec_entries()
    }

    /// Starts to write a KV pair. Once the operation is done, it gives the
    /// previous value, if there was one.
    ///
    /// Done does not mean durable. For that, use `flush` below.
    pub fn insert(&mut self, k: [u8; K], v: [u8; V]) -> (r: LsmAction<V>)
        requires
            old(self).wf(),
            old(self)@.phase is Idle,
            K > 0,
            V > 0,
            !(k[0] == 255 && v[0] == 254),
        ensures
            final(self).wf(),
            final(self)@ == old(self)@.mutating(k, Some(v)),
            match r {
                LsmAction::AppendLog(bytes) => bytes@ == record_bytes(k, Some(v)),
                _ => false,
            },
    {
        self.log_mutation(k, Some(v))
    }

    /// Starts to remove a KV pair. Once the operation is done, it gives the
    /// previous value, if there was one.
    ///
    /// Done does not mean durable. For that, use `flush` below.
    pub fn remove(&mut self, k: &[u8; K]) -> (r: LsmAction<V>)
        requires
            old(self).wf(),
            old(self)@.phase is Idle,
        ensures
            final(self).wf(),
            final(self)@ == old(self)@.mutating(*k, None),
            match r {
                LsmAction::AppendLog(bytes) => bytes@ == record_bytes::<K, V>(*k, None),
                _ => false,
            },
    {
        self.log_mutation(*k, None)
    }

    fn log_mutation(&mut self, k: [u8; K], v: Option<[u8; V]>) -> (r: LsmAction<V>)
        requires
            old(self).wf(),
            old(self)@.phase is Idle,
        ensures
            final(self).wf(),
            final(self)@ == old(self)@.mutating(k, v),
            match r {
                LsmAction::AppendLog(bytes) => bytes@ == record_bytes(k, v),
                _ => false,
            },
    {
        let mut bytes: Vec<u8> = Vec::new();
        push_record(&mut bytes, &k, &v);
        assert(bytes@ =~= record_bytes(k, v));
        self.phase = Phase::Logging;
        self.pending = Some((k, v));
        LsmAction::AppendLog(bytes)
    }

    /// Starts to make all log data durable. If the log has grown above a
    /// certain threshold, it is then compacted into a new sstable, and is
    /// emptied after the sstable has been written and made durable.
    pub fn flush(&mut self) -> (r: LsmAction<V>)
        requires
            old(self).wf(),
            old(self)@.phase is Idle,
        ensures
            final(self).wf(),
            final(self)@ == old(self)@.flushing(),
            r == LsmAction::<V>::SyncLog,
    {
        self.phase = Phase::Syncing;
        LsmAction::SyncLog
    }

    /// Goes on with an operation, after what it asked for has been done (`ok`)
    /// or has failed.
    pub fn resume(&mut self, ok: bool) -> (r: LsmAction<V>)
        requires
            old(self).wf(),
            old(self)@.accepts(ok),
        ensures
            final(self).wf(),
            final(self)@ == old(self)@.resumed(ok).0,
            r == old(self)@.resumed(ok).1,
    {
        if !ok {
            self.phase = Phase::Idle;
            self.pending = None;
            return LsmAction::Failed;
        }
        match self.phase {
            Phase::Idle => LsmAction::Failed,
            Phase::Logging => {
                if let Some((k, v)) = self.pending {
                    self.memtable.insert(k, v);
                }
                self.dirty_bytes = self.dirty_bytes + HEADER_LEN + K + V;
                if self.dirty_bytes > self.config.max_log_length {
                    self.phase = Phase::Syncing;
                    LsmAction::SyncLog
                } else {
                    self.finish()
                }
            },
            Phase::Syncing => {
                if self.dirty_bytes > self.config.max_log_length {
                    self.phase = Phase::Writing;
                    LsmAction::WriteSstable(self.next_sstable_id)
                } else {
                    self.finish()
                }
            },
            Phase::Writing => {
                let notice = WorkerMessage::NewSST {
                    id: self.next_sstable_id,
                    sst_sz: (8 + self.memtable.len() as u128 * (5 + K as u128 + V as u128)) as u64,
                    db_sz: (self.db.len() as u128 * (K as u128 + V as u128)) as u64,
                };
                self.memtable = OrderedMap::new();
                self.next_sstable_id = self.next_sstable_id + 1;
                self.phase = Phase::Truncating;
                LsmAction::TruncateLog(notice)
            },
            Phase::Truncating => {
                self.dirty_bytes = 0;
                self.finish()
            },
        }
    }

    /// Ends an operation well.
    fn finish(&mut self) -> (r: LsmAction<V>)
        requires
            old(self).memtable.wf(),
            old(self).db.wf(),
        ensures
            final(self).wf(),
            final(self)@ == old(self)@.finished().0,
            r == old(self)@.finished().1,
    {
        self.phase = Phase::Idle;
        let pending = self.pending;
        self.pending = None;
        match pending {
            Some((k, Some(v))) => LsmAction::Done(self.db.insert(k, v)),
            Some((k, None)) => LsmAction::Done(self.db.remove(&k)),
            None => LsmAction::Done(None),
        }
    }

    /// Whether the operation can go on.
    pub fn accepts(&self, ok: bool) -> (r: bool)
        requires
            self.wf(),
        ensures
            r == self@.accepts(ok),
    {
        match self.phase {
            Phase::Idle => false,
            Phase::Logging => {
                !ok || (self.dirty_bytes as u128 + 5 + K as u128 + V as u128) <= usize::MAX as u128
            },
            Phase::Writing => {
                !ok || (self.next_sstable_id < u64::MAX && items_fit(
                    self.memtable.len(),
                    5 + K as u128 + V as u128,
                    u64::MAX - 8,
                ) && items_fit(self.db.len(), K as u128 + V as u128, u64::MAX))
            },
            _ => true,
        }
    }

    /// The file contents of an sstable made of the memtable.
    pub fn memtable_sstable(&self) -> (r: Result<Vec<u8>, Error>)
        requires
            self.wf(),
        ensures
            match r {
                Ok(file) => {
                    &&& file@ == zstd_compressed(
                        sstable_bytes(self.memtable_entries()),
                        self@.config.zstd_sstable_compression_level as i32,
                    )
                    &&& zstd_decompressed(file@) == sstable_bytes(self.memtable_entries())
                },
                Err(e) => e is Zstd,
            },
            ascending(self.memtable_entries()),
            map_of(self.memtable_entries()) == self@.memtable,
    {
        proof {
            self.memtable.lemma_entries_ascend();
        }
        write_sstable(&self.memtable, &self.config)
    }
}

/// Gives access to the data, without any waiting.
impl<const K: usize, const V: usize> core::ops::Deref for Lsm<K, V> {
    type Target = OrderedMap<K, [u8; V]>;

    fn deref(&self) -> (r: &OrderedMap<K, [u8; V]>)
        ensures
            r@ == self@.db,
            self.wf() ==> r.wf(),
    {
        &self.db
    }
}

/// The ids and entries of sstables that were read.
pub open spec fn entries_of<const K: usize, const V: usize>(
    tables: Seq<(u64, Vec<([u8; K], Option<[u8; V]>)>)>,
) -> Seq<(u64, Seq<([u8; K], Option<[u8; V]>)>)> {
    tables.map_values(|table: (u64, Vec<([u8; K], Option<[u8; V]>)>)| (table.0, table.1@))
}

/// The ids of sstables and the entries that their file contents hold.
pub open spec fn entries_in<const K: usize, const V: usize>(files: Seq<(u64, Vec<u8>)>) -> Seq<
    (u64, Seq<([u8; K], Option<[u8; V]>)>),
> {
    files.map_values(
        |file: (u64, Vec<u8>)|
            (file.0, records_of::<K, V>(zstd_decompressed(file.1@).skip(COUNT_LEN as int))),
    )
}

/// The id after those of the sstables.
pub open spec fn id_after(ids: Set<u64>) -> int {
    if ids.len() == 0 {
        1
    } else {
        sorted_ids(ids).last() + 1
    }
}

/// The state of a database that was recovered.
pub open spec fn recovered_lsm<const K: usize, const V: usize>(
    tables: Map<u64, Seq<([u8; K], Option<[u8; V]>)>>,
    log: Seq<u8>,
    config: Config,
) -> LsmState<K, V> {
    LsmState {
        memtable: overlay(Map::empty(), records_of::<K, V>(log)),
        db: contents(tables, log),
        next_sstable_id: id_after(tables.dom()) as u64,
        dirty_bytes: intact_len::<K, V>(log) as usize,
        config,
        phase: Phase::Idle,
        pending: None,
    }
}

/// The state of the worker of a database that was recovered.
pub open spec fn recovered_worker<const K: usize, const V: usize>(
    tables: Map<u64, Seq<([u8; K], Option<[u8; V]>)>>,
    log: Seq<u8>,
    config: Config,
) -> WorkerState<K, V> {
    WorkerState {
        directory: sizes(tables),
        db_sz: (contents(tables, log).len() * (K + V)) as u64,
        config,
        step: Step::Polling,
        run: Seq::empty(),
        next: 0,
        merged: Map::empty(),
    }
}

/// What comes of recovering a database.
pub struct Recovery<const K: usize, const V: usize> {
    pub lsm: Lsm<K, V>,
    pub worker: Worker<K, V>,
    /// The number of bytes of the log that hold intact records.
    pub log_len: usize,
    /// Whether anything follows them. Then the log is torn, and is to be cut
    /// off there.
    pub log_torn: bool,
    /// The ids of the sstables in which records are missing.
    pub incomplete: Vec<u64>,
}

impl<const K: usize, const V: usize> Recovery<K, V> {
    /// This is what the sstables and the log amount to.
    pub open spec fn is_recovered_from(
        self,
        tables: Map<u64, Seq<([u8; K], Option<[u8; V]>)>>,
        log: Seq<u8>,
        config: Config,
    ) -> bool {
        &&& self.lsm.wf()
        &&& self.lsm@ == recovered_lsm(tables, log, config)
        &&& self.worker.wf()
        &&& self.worker@ == recovered_worker(tables, log, config)
        &&& self.log_len == intact_len::<K, V>(log)
        &&& self.log_torn <==> intact_len::<K, V>(log) < log.len()
    }
}

/// Applies the entries of sstables, oldest first.
fn replay_all<const K: usize, const V: usize>(
    tables: &Vec<(u64, Vec<([u8; K], Option<[u8; V]>)>)>,
) -> (db: OrderedMap<K, [u8; V]>)
    requires
        increasing(ids_of(tables@)),
    ensures
        db.wf(),
        db@ == stored(by_id(entries_of(tables@))),
{
    let ghost held = entries_of(tables@);
    let ghost all = held.map_values(|table: (u64, Seq<([u8; K], Option<[u8; V]>)>)| table.1);
    let mut db: OrderedMap<K, [u8; V]> = OrderedMap::new();
    let mut i: usize = 0;
    while i < tables.len()
        invariant
            i <= tables.len(),
            all.len() == tables.len(),
            forall|j: int| 0 <= j < tables.len() ==> all[j] == (#[trigger] tables@[j]).1@,
            db.wf(),
            db@ == replay_tables(Map::empty(), all.take(i as int)),
        decreases tables.len() - i,
    {
        assert(all.take(i + 1).drop_last() =~= all.take(i as int));
        replay_entries(&mut db, &tables[i].1);
        i = i + 1;
    }
    proof {
        assert(all.take(i as int) =~= all);
        assert(ids_of(held) =~= ids_of(tables@));
        lemma_by_id(held);
    }
    db
}

/// The sizes of sstables, by id.
fn sizes_of<const K: usize, const V: usize>(
    tables: &Vec<(u64, Vec<([u8; K], Option<[u8; V]>)>)>,
) -> (r: BTreeMap<u64, u64>)
    requires
        forall|i: int|
            0 <= i < tables@.len() ==> sstable_len::<K, V>((#[trigger] tables@[i]).1@.len())
                <= u64::MAX,
    ensures
        r@ == sizes(by_id(entries_of(tables@))),
{
    broadcast use vstd::std_specs::btree::group_btree_axioms;

    let ghost held = entries_of(tables@);
    let mut r: BTreeMap<u64, u64> = BTreeMap::new();
    assert(r@ =~= sizes(by_id(held.take(0))));
    let mut i: usize = 0;
    while i < tables.len()
        invariant
            i <= tables.len(),
            held == entries_of(tables@),
            forall|i: int|
                0 <= i < tables@.len() ==> sstable_len::<K, V>((#[trigger] tables@[i]).1@.len())
                    <= u64::MAX,
            r@ == sizes(by_id(held.take(i as int))),
        decreases tables.len() - i,
    {
        let ghost before = r@;
        assert(held.take(i + 1).drop_last() =~= held.take(i as int));
        assert(tables@[i as int].1@.len() * record_len::<K, V>() <= u64::MAX);
        let size: u64 = (8 + tables[i].1.len() as u128 * (5 + K as u128 + V as u128)) as u64;
        r.insert(tables[i].0, size);
        i = i + 1;
        assert(r@ =~= sizes(by_id(held.take(i as int))));
    }
    assert(held.take(i as int) =~= held);
    r
}

impl<const K: usize, const V: usize> Lsm<K, V> {
    /// Puts the database together from the entries of its sstables, in
    /// ascending order of their ids, and its log.
    ///
    /// Nothing is returned if the size of the database does not fit in 64
    /// bits.
    pub fn rebuild(
        tables: &Vec<(u64, Vec<([u8; K], Option<[u8; V]>)>)>,
        log: &[u8],
        config: Config,
    ) -> (r: Option<Recovery<K, V>>)
        requires
            increasing(ids_of(tables@)),
            forall|i: int| 0 <= i < tables@.len() ==> (#[trigger] tables@[i]).0 < u64::MAX,
            forall|i: int|
                0 <= i < tables@.len() ==> sstable_len::<K, V>((#[trigger] tables@[i]).1@.len())
                    <= u64::MAX,
        ensures
            r is Some <==> contents(by_id(entries_of(tables@)), log@).len() * (K + V) <= u64::MAX,
            r matches Some(recovery) ==> recovery.is_recovered_from(
                by_id(entries_of(tables@)),
                log@,
                config,
            ) && recovery.incomplete@.len() == 0,
    {
        let ghost held = entries_of(tables@);
        proof {
            assert(ids_of(held) =~= ids_of(tables@));
            lemma_by_id(held);
            lemma_sorted_ids(by_id(held).dom());
        }
        let next_sstable_id: u64 = if tables.len() == 0 {
            1
        } else {
            assert(ids_of(tables@).last() == tables@.last().0);
            tables[tables.len() - 1].0 + 1
        };
        let mut db = replay_all(tables);
        let scan = read_records::<K, V>(log, 0);
        assert(log@.skip(0) =~= log@);
        replay_entries(&mut db, &scan.entries);
        let mut memtable: OrderedMap<K, Option<[u8; V]>> = OrderedMap::new();
        overlay_entries(&mut memtable, &scan.entries);
        if !items_fit(db.len(), K as u128 + V as u128, u64::MAX) {
            return None;
        }
        let db_sz: u64 = (db.len() as u128 * (K as u128 + V as u128)) as u64;
        let worker = Worker::new(sizes_of(tables), db_sz, config);
        let lsm = Lsm {
            memtable,
            db,
            next_sstable_id,
            dirty_bytes: scan.valid_len,
            config,
            phase: Phase::Idle,
            pending: None,
        };
        Some(
            Recovery {
                lsm,
                worker,
                log_len: scan.valid_len,
                log_torn: scan.valid_len < log.len(),
                incomplete: Vec::new(),
            },
        )
    }
}

/// The ids of the sstables that hold another number of records than they were
/// written with.
pub open spec fn incomplete_in<const K: usize, const V: usize>(files: Seq<(u64, Vec<u8>)>) -> Seq<
    u64,
>
    decreases files.len(),
{
    if files.len() == 0 {
        Seq::empty()
    } else {
        let front = incomplete_in::<K, V>(files.drop_last());
        let bytes = zstd_decompressed(files.last().1@);
        if records_of::<K, V>(bytes.skip(COUNT_LEN as int)).len() != from_le64(
            bytes.take(COUNT_LEN as int),
        ) {
            front.push(files.last().0)
        } else {
            front
        }
    }
}

/// Each file holds at least the number of records of an sstable.
pub open spec fn all_counted(files: Seq<(u64, Vec<u8>)>) -> bool {
    forall|i: int|
        0 <= i < files.len() ==> zstd_decompressed((#[trigger] files[i]).1@).len() >= COUNT_LEN
}

/// The entries of sstables, and the ids of those in which records are missing.
struct Tables<const K: usize, const V: usize> {
    tables: Vec<(u64, Vec<([u8; K], Option<[u8; V]>)>)>,
    incomplete: Vec<u64>,
}

/// Reads the file contents of sstables, in order.
fn read_all<const K: usize, const V: usize>(files: &Vec<(u64, Vec<u8>)>) -> (r: Result<
    Tables<K, V>,
    Error,
>)
    ensures
        match r {
            Ok(read) => {
                &&& all_counted(files@)
                &&& entries_of(read.tables@) == entries_in::<K, V>(files@)
                &&& read.incomplete@ == incomplete_in::<K, V>(files@)
                &&& forall|i: int|
                    0 <= i < read.tables@.len() ==> sstable_len::<K, V>(
                        (#[trigger] read.tables@[i]).1@.len(),
                    ) <= u64::MAX
            },
            Err(Error::Truncated) => !all_counted(files@),
            Err(Error::Zstd(_)) => files@.len() > 0,
            Err(Error::TooLarge) => false,
        },
{
    let mut tables: Vec<(u64, Vec<([u8; K], Option<[u8; V]>)>)> = Vec::new();
    let mut incomplete: Vec<u64> = Vec::new();
    let mut i: usize = 0;
    while i < files.len()
        invariant
            i <= files.len(),
            tables.len() == i,
            forall|j: int|
                0 <= j < i ==> entries_of(tables@)[j] == #[trigger] entries_in::<K, V>(files@)[j],
            forall|j: int|
                0 <= j < i ==> sstable_len::<K, V>((#[trigger] tables@[j]).1@.len()) <= u64::MAX,
            incomplete@ == incomplete_in::<K, V>(files@.take(i as int)),
            all_counted(files@.take(i as int)),
        decreases files.len() - i,
    {
        let ghost before = tables@;
        assert(files@.take(i + 1).drop_last() =~= files@.take(i as int));
        match read_sstable::<K, V>(files[i].1.as_slice()) {
            Ok(table) => {
                if table.entries.len() as u64 != table.expected_len {
                    incomplete.push(files[i].0);
                }
                tables.push((files[i].0, table.entries));
            },
            Err(e) => {
                assert(!(zstd_decompressed(files@[i as int].1@).len() >= COUNT_LEN) || e is Zstd);
                return Err(e);
            },
        }
        proof {
            assert forall|j: int| 0 <= j < i + 1 implies entries_of(tables@)[j]
                == #[trigger] entries_in::<K, V>(files@)[j] by {
                if j < i {
                    assert(entries_of(tables@)[j] == entries_of(before)[j]);
                }
            }
            assert forall|j: int| 0 <= j < i + 1 implies zstd_decompressed(
                (#[trigger] files@.take(i + 1)[j]).1@,
            ).len() >= COUNT_LEN by {
                if j < i {
                    assert(files@.take(i + 1)[j] == files@.take(i as int)[j]);
                }
            }
        }
        i = i + 1;
    }
    assert(files@.take(i as int) =~= files@);
    assert(entries_of(tables@) =~= entries_in::<K, V>(files@));
    Ok(Tables { tables, incomplete })
}

/// This is what recovering a database comes to.
pub open spec fn recovers_to<const K: usize, const V: usize>(
    files: Seq<(u64, Vec<u8>)>,
    log: Seq<u8>,
    config: Config,
    r: Result<Recovery<K, V>, Error>,
) -> bool {
    let tables = by_id(entries_in::<K, V>(files));
    let fits = contents(tables, log).len() * (K + V) <= u64::MAX;
    match r {
        Ok(recovery) => {
            &&& all_counted(files)
            &&& fits
            &&& recovery.is_recovered_from(tables, log, config)
            &&& recovery.incomplete@ == incomplete_in::<K, V>(files)
        },
        Err(Error::Truncated) => !all_counted(files),
        Err(Error::TooLarge) => all_counted(files) && !fits,
        Err(Error::Zstd(_)) => files.len() > 0,
    }
}

impl<const K: usize, const V: usize> Lsm<K, V> {
    /// Recovers the database from the file contents of its sstables, in
    /// ascending order of their ids, and its log. Make sure to never recover a
    /// database using different K, V parameters than it was created with, or
    /// there may be data loss.
    ///
    /// This is an O(N) operation: all sstables and the log are read, to recover
    /// all data into memory.
    pub fn recover(files: &Vec<(u64, Vec<u8>)>, log: &[u8]) -> (r: Result<Recovery<K, V>, Error>)
        requires
            increasing(ids_of(files@)),
            forall|i: int| 0 <= i < files@.len() ==> (#[trigger] files@[i]).0 < u64::MAX,
        ensures
            recovers_to(files@, log@, default_config(), r),
    {
        Lsm::recover_with_config(files, log, Config::default())
    }

    /// Recovers the database, and takes custom options around IO and merging.
    /// All values in the `Config` object are safe to change across restarts,
    /// unlike the fixed K and V lengths for data in the database.
    pub fn recover_with_config(
        files: &Vec<(u64, Vec<u8>)>,
        log: &[u8],
        config: Config,
    ) -> (r: Result<Recovery<K, V>, Error>)
        requires
            increasing(ids_of(files@)),
            forall|i: int| 0 <= i < files@.len() ==> (#[trigger] files@[i]).0 < u64::MAX,
        ensures
            recovers_to(files@, log@, config, r),
    {
        let read = match read_all::<K, V>(files) {
            Ok(read) => read,
            Err(e) => {
                return Err(e);
            },
        };
        proof {
            let held = entries_of(read.tables@);
            assert(held.len() == files@.len());
            assert forall|i: int| 0 <= i < held.len() implies (#[trigger] held[i]).0
                == files@[i].0 && read.tables@[i].0 == files@[i].0 by {
                assert(entries_in::<K, V>(files@)[i].0 == files@[i].0);
            }
            assert(ids_of(read.tables@) =~= ids_of(files@)) by {
                assert forall|i: int| 0 <= i < files@.len() implies ids_of(read.tables@)[i]
                    == ids_of(files@)[i] by {
                    assert(held[i].0 == files@[i].0);
                }
            }
            assert forall|i: int| 0 <= i < read.tables@.len() implies (
            #[trigger] read.tables@[i]).0 < u64::MAX by {
                assert(held[i].0 == files@[i].0);
            }
        }
        match Lsm::rebuild(&read.tables, log, config) {
            Some(mut recovery) => {
                recovery.incomplete = read.incomplete;
                Ok(recovery)
            },
            None => Err(Error::TooLarge),
        }
    }
}

/// From files that hold sstables as they were written, recovery reads just
/// these sstables, and finds none incomplete.
pub proof fn law_files_are_read_as_written<const K: usize, const V: usize>(
    files: Seq<(u64, Vec<u8>)>,
    tables: Map<u64, Seq<([u8; K], Option<[u8; V]>)>>,
)
    requires
        increasing(ids_of(files)),
        ids_of(files).to_set() == tables.dom(),
        forall|i: int|
            0 <= i < files.len() ==> {
                &&& zstd_decompressed((#[trigger] files[i]).1@) == sstable_bytes(
                    tables[files[i].0],
                )
                &&& tables[files[i].0].len() <= u64::MAX
            },
    ensures
        all_counted(files),
        by_id(entries_in::<K, V>(files)) == tables,
        incomplete_in::<K, V>(files).len() == 0,
{
    let held = entries_in::<K, V>(files);
    assert forall|i: int| 0 <= i < files.len() implies (#[trigger] held[i]) == (
        files[i].0,
        tables[files[i].0],
    ) && zstd_decompressed(files[i].1@).len() >= COUNT_LEN by {
        law_sstable_read_back(tables[files[i].0], files[i].1@);
    }
    assert(all_counted(files)) by {
        assert forall|i: int| 0 <= i < files.len() implies zstd_decompressed(
            (#[trigger] files[i]).1@,
        ).len() >= COUNT_LEN by {
            assert(held[i].0 == files[i].0);
        }
    }
    assert(ids_of(held) =~= ids_of(files)) by {
        assert forall|i: int| 0 <= i < files.len() implies ids_of(held)[i] == ids_of(files)[i] by {
            assert(held[i].0 == files[i].0);
        }
    }
    lemma_by_id(held);
    lemma_sorted_ids(by_id(held).dom());
    assert(by_id(held) =~= tables) by {
        assert(by_id(held).dom() =~= tables.dom());
        assert forall|id: u64| tables.contains_key(id) implies by_id(held)[id] == tables[id] by {
            assert(ids_of(held).contains(id));
            let i = choose|i: int| 0 <= i < ids_of(held).len() && ids_of(held)[i] == id;
            assert(by_id(held)[held[i].0] == held[i].1);
        }
    }
    lemma_none_incomplete(files, tables, files.len());
    assert(files.take(files.len() as int) =~= files);
}

/// None of the first `n` files is incomplete.
proof fn lemma_none_incomplete<const K: usize, const V: usize>(
    files: Seq<(u64, Vec<u8>)>,
    tables: Map<u64, Seq<([u8; K], Option<[u8; V]>)>>,
    n: nat,
)
    requires
        n <= files.len(),
        forall|i: int|
            0 <= i < files.len() ==> {
                &&& zstd_decompressed((#[trigger] files[i]).1@) == sstable_bytes(
                    tables[files[i].0],
                )
                &&& tables[files[i].0].len() <= u64::MAX
            },
    ensures
        incomplete_in::<K, V>(files.take(n as int)).len() == 0,
    decreases n,
{
    if n > 0 {
        lemma_none_incomplete(files, tables, (n - 1) as nat);
        assert(files.take(n as int).drop_last() =~= files.take(n - 1));
        law_sstable_read_back(tables[files[n - 1].0], files[n - 1].1@);
    }
}

/// The id after those of the sstables is above all of them, and one above some
/// of them; without sstables it is one.
pub proof fn law_next_id(ids: Set<u64>)
    requires
        ids.finite(),
    ensures
        ids.len() == 0 ==> id_after(ids) == 1,
        ids.len() > 0 ==> exists|id: u64| #[trigger] ids.contains(id) && id_after(ids) == id + 1,
        forall|id: u64| #[trigger] ids.contains(id) ==> id < id_after(ids),
{
    let sorted = sorted_ids(ids);
    lemma_sorted_ids(ids);
    assert forall|id: u64| #[trigger] ids.contains(id) implies id < id_after(ids) by {
        assert(sorted.to_set().contains(id));
        let i = choose|i: int| 0 <= i < sorted.len() && sorted[i] == id;
        assert(sorted[i] <= sorted.last());
    }
    if ids.len() > 0 {
        assert(sorted.len() > 0) by {
            assert(ids.contains(ids.choose()));
            assert(sorted.to_set().contains(ids.choose()));
        }
        assert(sorted.to_set().contains(sorted.last()));
        assert(ids.contains(sorted.last()));
    }
}

/// A database that was recovered holds what the sstables and the log amount to,
/// and in its memtable what the log says. It goes on behind the intact records
/// of the log and with an id above all others, and knows where the log is torn.
pub proof fn law_what_is_recovered<const K: usize, const V: usize>(
    recovery: Recovery<K, V>,
    tables: Map<u64, Seq<([u8; K], Option<[u8; V]>)>>,
    log: Seq<u8>,
    config: Config,
)
    requires
        recovery.is_recovered_from(tables, log, config),
        tables.dom().finite(),
        !tables.contains_key(u64::MAX),
    ensures
        recovery.lsm.wf(),
        recovery.lsm@.db == contents(tables, log),
        recovery.lsm@.config == config,
        recovery.lsm@.phase == Phase::Idle,
        recovery.lsm@.pending is None,
        recovery.log_len == records_of::<K, V>(log).len() * (5 + K + V),
        recovery.log_len <= log.len(),
        recovery.log_torn <==> recovery.log_len < log.len(),
        recovery.lsm@.dirty_bytes == recovery.log_len,
        forall|id: u64| #[trigger]
            tables.contains_key(id) ==> id < recovery.lsm@.next_sstable_id,
        tables.dom().len() == 0 ==> recovery.lsm@.next_sstable_id == 1,
        tables.dom().len() > 0 ==> tables.contains_key(
            (recovery.lsm@.next_sstable_id - 1) as u64,
        ),
        forall|i: int| #[trigger]
            is_last_of_its_key(records_of::<K, V>(log), i) ==> recovery.lsm@.memtable.get(
                records_of::<K, V>(log)[i].0,
            ) == Some(records_of::<K, V>(log)[i].1),
        forall|key: [u8; K]| #[trigger]
            silent_on(records_of::<K, V>(log), key) ==> !recovery.lsm@.memtable.contains_key(key),
{
    let read = records_of::<K, V>(log);
    let ids = tables.dom();
    lemma_intact_len::<K, V>(log);
    law_next_id(ids);
    if ids.len() > 0 {
        let id = choose|id: u64| #[trigger] ids.contains(id) && id_after(ids) == id + 1;
        assert(tables.contains_key(id) && id < u64::MAX);
    }
    assert forall|id: u64| #[trigger] tables.contains_key(id) implies id
        < recovery.lsm@.next_sstable_id by {
        assert(ids.contains(id));
    }
    assert forall|i: int| #[trigger] is_last_of_its_key(read, i) implies recovery.lsm@.memtable.get(
        read[i].0,
    ) == Some(read[i].1) by {
        law_last_entry_decides::<K, V>(Map::empty(), Map::empty(), read, i);
    }
    assert forall|key: [u8; K]| #[trigger] silent_on(
        read,
        key,
    ) implies !recovery.lsm@.memtable.contains_key(key) by {
        law_untouched_key_stays::<K, V>(Map::empty(), Map::empty(), read, key);
    }
}

/// The worker of a database that was recovered knows the size of each sstable
/// and of the database, and looks for something to do.
pub proof fn law_what_the_worker_starts_with<const K: usize, const V: usize>(
    recovery: Recovery<K, V>,
    tables: Map<u64, Seq<([u8; K], Option<[u8; V]>)>>,
    log: Seq<u8>,
    config: Config,
)
    requires
        recovery.is_recovered_from(tables, log, config),
        contents(tables, log).len() * (K + V) <= u64::MAX,
        forall|id: u64| #[trigger]
            tables.contains_key(id) ==> 8 + tables[id].len() * (5 + K + V) <= u64::MAX,
    ensures
        recovery.worker.wf(),
        recovery.worker@.directory.dom() == tables.dom(),
        forall|id: u64| #[trigger]
            tables.contains_key(id) ==> recovery.worker@.directory[id] == 8 + tables[id].len() * (5
                + K + V),
        recovery.worker@.db_sz == recovery.lsm@.db.len() * (K + V),
        recovery.worker@.config == config,
        recovery.worker@.step == Step::Polling,
{
    assert(recovery.worker@.directory.dom() =~= tables.dom());
    assert forall|id: u64| #[trigger]
        tables.contains_key(id) implies recovery.worker@.directory[id] == 8 + tables[id].len() * (5
        + K + V) by {
        law_sizes(tables, id);
    }
}

/// The sstables by id are those of the files, each with the records that its
/// contents hold behind the number of records.
pub proof fn law_each_file_is_an_sstable<const K: usize, const V: usize>(
    files: Seq<(u64, Vec<u8>)>,
)
    requires
        forall|i: int, j: int|
            0 <= i < j < files.len() ==> (#[trigger] files[i]).0 < (#[trigger] files[j]).0,
    ensures
        forall|i: int|
            0 <= i < files.len() ==> {
                &&& by_id(entries_in::<K, V>(files)).contains_key((#[trigger] files[i]).0)
                &&& by_id(entries_in::<K, V>(files))[files[i].0] == records_of::<K, V>(
                    zstd_decompressed(files[i].1@).skip(8),
                )
            },
        forall|id: u64| #[trigger]
            by_id(entries_in::<K, V>(files)).contains_key(id) ==> exists|i: int|
                0 <= i < files.len() && (#[trigger] files[i]).0 == id,
        by_id(entries_in::<K, V>(files)).dom().finite(),
{
    let held = entries_in::<K, V>(files);
    let ids = ids_of(held);
    assert forall|i: int, j: int| 0 <= i < j < ids.len() implies ids[i] < ids[j] by {
        assert(held[i].0 == files[i].0 && held[j].0 == files[j].0);
    }
    lemma_by_id(held);
    lemma_sorted_ids(by_id(held).dom());
    assert forall|i: int| 0 <= i < files.len() implies {
        &&& by_id(held).contains_key((#[trigger] files[i]).0)
        &&& by_id(held)[files[i].0] == records_of::<K, V>(zstd_decompressed(files[i].1@).skip(8))
    } by {
        assert(held[i].0 == files[i].0);
        assert(ids[i] == files[i].0);
        assert(ids.to_set().contains(files[i].0));
        assert(by_id(held)[held[i].0] == held[i].1);
    }
    assert forall|id: u64| #[trigger] by_id(held).contains_key(id) implies exists|i: int|
        0 <= i < files.len() && (#[trigger] files[i]).0 == id by {
        assert(ids.to_set().contains(id));
        let i = choose|i: int| 0 <= i < ids.len() && ids[i] == id;
        assert(held[i].0 == files[i].0);
    }
}

/// The number of records that the contents of an sstable were written with.
pub open spec fn count_in(bytes: Seq<u8>) -> int {
    bytes[0] + 0x100 * bytes[1] + 0x1_0000 * bytes[2] + 0x100_0000 * bytes[3] + 0x1_0000_0000
        * bytes[4] + 0x100_0000_0000 * bytes[5] + 0x1_0000_0000_0000 * bytes[6]
        + 0x100_0000_0000_0000 * bytes[7]
}

/// An sstable counts as incomplete if and only if another number of records is
/// read from it than it was written with.
pub proof fn law_incomplete_sstables_are_told<const K: usize, const V: usize>(
    files: Seq<(u64, Vec<u8>)>,
    id: u64,
)
    requires
        all_counted(files),
    ensures
        incomplete_in::<K, V>(files).contains(id) <==> exists|i: int|
            0 <= i < files.len() && (#[trigger] files[i]).0 == id && records_of::<K, V>(
                zstd_decompressed(files[i].1@).skip(8),
            ).len() != count_in(zstd_decompressed(files[i].1@)),
    decreases files.len(),
{
    let told = incomplete_in::<K, V>(files);
    if files.len() > 0 {
        let front = files.drop_last();
        let last = files[files.len() - 1];
        let before = incomplete_in::<K, V>(front);
        let bytes = zstd_decompressed(last.1@);
        let lacking = records_of::<K, V>(bytes.skip(8)).len() != count_in(bytes);
        assert forall|i: int| 0 <= i < front.len() implies zstd_decompressed(
            (#[trigger] front[i]).1@,
        ).len() >= COUNT_LEN by {
            assert(front[i] == files[i]);
        }
        law_incomplete_sstables_are_told::<K, V>(front, id);
        lemma_from_le64(bytes.take(8));
        assert(zstd_decompressed(files[files.len() - 1].1@).len() >= COUNT_LEN);
        assert(told == if lacking {
            before.push(last.0)
        } else {
            before
        });
        assert(told.contains(id) <==> before.contains(id) || (lacking && last.0 == id)) by {
            if lacking {
                assert(told[before.len() as int] == last.0);
                if before.contains(id) {
                    let i = choose|i: int| 0 <= i < before.len() && before[i] == id;
                    assert(told[i] == id);
                }
            }
        }
        if before.contains(id) {
            let i = choose|i: int|
                0 <= i < front.len() && (#[trigger] front[i]).0 == id && records_of::<K, V>(
                    zstd_decompressed(front[i].1@).skip(8),
                ).len() != count_in(zstd_decompressed(front[i].1@));
            assert(files[i] == front[i]);
        }
        if exists|i: int|
            0 <= i < files.len() && (#[trigger] files[i]).0 == id && records_of::<K, V>(
                zstd_decompressed(files[i].1@).skip(8),
            ).len() != count_in(zstd_decompressed(files[i].1@)) {
            let i = choose|i: int|
                0 <= i < files.len() && (#[trigger] files[i]).0 == id && records_of::<K, V>(
                    zstd_decompressed(files[i].1@).skip(8),
                ).len() != count_in(zstd_decompressed(files[i].1@));
            if i < front.len() {
                assert(front[i] == files[i]);
            }
        }
    }
}

/// Recovery reads all files, or says why it does not: one is too short for the
/// number of its records, the size of the database does not fit in 64 bits, or
/// a compression stream failed.
pub proof fn law_how_recovery_ends<const K: usize, const V: usize>(
    files: Seq<(u64, Vec<u8>)>,
    log: Seq<u8>,
    config: Config,
    r: Result<Recovery<K, V>, Error>,
)
    requires
        recovers_to(files, log, config, r),
    ensures
        ({
            let tables = by_id(entries_in::<K, V>(files));
            let too_short = exists|i: int|
                0 <= i < files.len() && zstd_decompressed((#[trigger] files[i]).1@).len() < 8;
            let fits = contents(tables, log).len() * (K + V) <= u64::MAX;
            match r {
                Ok(recovery) => {
                    &&& !too_short
                    &&& fits
                    &&& recovery.is_recovered_from(tables, log, config)
                    &&& recovery.incomplete@ == incomplete_in::<K, V>(files)
                },
                Err(Error::Truncated) => too_short,
                Err(Error::TooLarge) => !too_short && !fits,
                Err(Error::Zstd(_)) => files.len() > 0,
            }
        }),
{
}

/// Sstables that were read are taken with their ids and all their entries.
pub proof fn law_each_sstable_is_taken<const K: usize, const V: usize>(
    tables: Seq<(u64, Vec<([u8; K], Option<[u8; V]>)>)>,
    i: int,
)
    requires
        forall|i: int, j: int|
            0 <= i < j < tables.len() ==> (#[trigger] tables[i]).0 < (#[trigger] tables[j]).0,
        0 <= i < tables.len(),
    ensures
        by_id(entries_of(tables)).contains_key(tables[i].0),
        by_id(entries_of(tables))[tables[i].0] == tables[i].1@,
{
    let held = entries_of(tables);
    let ids = ids_of(held);
    assert forall|i: int, j: int| 0 <= i < j < ids.len() implies ids[i] < ids[j] by {
        assert(held[i].0 == tables[i].0 && held[j].0 == tables[j].0);
    }
    lemma_by_id(held);
    lemma_sorted_ids(by_id(held).dom());
    assert(held[i].0 == tables[i].0);
    assert(ids[i] == tables[i].0);
    assert(ids.to_set().contains(tables[i].0));
    assert(by_id(held)[held[i].0] == held[i].1);
}

} // verus!
