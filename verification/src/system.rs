//! The database, its worker and its files together.
//!
//! The database and the worker take turns in any order, and what the database
//! asks for may fail. The laws here say that whatever happens, the files are
//! worth the data with every entry that was logged, at every moment; and that
//! these are the data that the database holds, but for keys whose insertion or
//! removal has failed after its entry was logged.
use crate::compaction::{
    follows, law_compaction_keeps_the_data, law_compaction_keeps_the_database_backed,
    law_new_sstable_does_not_disturb, law_notice_is_true, law_recovered_worker_follows, truthful,
};
use crate::config::Config;
use crate::disk::{contents, law_new_sstable_is_read_last, sizes};
use crate::durability::{
    data_after, kept, law_failed_step_keeps_the_data, law_recovered_database_is_backed,
    law_step_keeps_what_is_logged, lemma_cut_sstable, lemma_logged, target,
};
use crate::lsm::{recovered_lsm, recovered_worker, LsmState, Phase};
use crate::model::replay;
use crate::ordered_map::{ascending, map_of};
use crate::record::{intact_len, law_cut_behind_intact_records, records_of};
use crate::sstable::sstable_len;
use crate::worker::{
    lemma_worker_stays_valid, WorkerAction, WorkerEvent, WorkerMessage, WorkerState,
};
use vstd::prelude::*;

verus! {

/// The state of everything.
#[verifier::ext_equal]
#[verifier::reject_recursive_types(K)]
pub struct System<const K: usize, const V: usize> {
    pub lsm: LsmState<K, V>,
    pub worker: WorkerState<K, V>,
    /// The entries that each sstable holds.
    pub tables: Map<u64, Seq<([u8; K], Option<[u8; V]>)>>,
    pub log: Seq<u8>,
    /// The new sstables of which the worker has not yet taken notice.
    pub inbox: Seq<WorkerMessage>,
    /// The entries of an sstable that was not written to its end, if there is
    /// one. It has the next id.
    pub cut: Option<Seq<([u8; K], Option<[u8; V]>)>>,
    /// The data with every entry that was logged.
    pub data: Map<[u8; K], [u8; V]>,
    /// The keys whose last insertion or removal has failed after its entry was
    /// logged.
    pub failed: Set<[u8; K]>,
}

/// Something that happens.
pub enum Move<const K: usize, const V: usize> {
    /// An insertion or removal starts.
    Mutate([u8; K], Option<[u8; V]>),
    /// A flush starts.
    Flush,
    /// What the database asked for is done. If it is to write the memtable,
    /// these are its entries.
    Step(Seq<([u8; K], Option<[u8; V]>)>),
    /// What the database asked for has failed. If it was to write the memtable,
    /// whose entries these are, it may have left an sstable with so many of
    /// them. No other file has been changed.
    Fail(Seq<([u8; K], Option<[u8; V]>)>, Option<nat>),
    /// What the worker asked for has come to this event. If it is to write the
    /// merged sstable, these are its entries.
    Work(WorkerEvent<K, V>, Seq<([u8; K], Option<[u8; V]>)>),
}

/// The id in a notice of a new sstable.
pub open spec fn id_in(message: WorkerMessage) -> u64 {
    message->id
}

impl<const K: usize, const V: usize> System<K, V> {
    /// The message is of an sstable that the worker does not know, and tells its
    /// size.
    pub open spec fn tells_the_truth(self, message: WorkerMessage) -> bool {
        &&& message is NewSST
        &&& self.tables.contains_key(id_in(message))
        &&& !self.worker.directory.contains_key(id_in(message))
        &&& message->sst_sz == sstable_len::<K, V>(self.tables[id_in(message)].len())
    }

    /// The messages on their way tell the truth, in the order of the ids, about
    /// just those sstables that the worker does not know.
    pub open spec fn inbox_is_true(self) -> bool {
        &&& forall|i: int| 0 <= i < self.inbox.len() ==> self.tells_the_truth(#[trigger] self.inbox[i])
        &&& forall|i: int, j: int|
            0 <= i < j < self.inbox.len() ==> id_in(#[trigger] self.inbox[i]) < id_in(
                #[trigger] self.inbox[j],
            )
        &&& forall|id: u64| #[trigger]
            self.tables.contains_key(id) && !self.worker.directory.contains_key(id) ==> exists|i: int|

                0 <= i < self.inbox.len() && id_in(#[trigger] self.inbox[i]) == id
    }

    /// The sstables as recovery finds them.
    pub open spec fn found(self) -> Map<u64, Seq<([u8; K], Option<[u8; V]>)>> {
        match self.cut {
            Some(part) => self.tables.insert(self.lsm.next_sstable_id, part),
            None => self.tables,
        }
    }

    /// The database is to hold the data with every entry that was logged, but
    /// for the failed keys.
    pub open spec fn agrees(self) -> bool {
        forall|key: [u8; K]|
            !self.failed.contains(key) ==> #[trigger] target(self.lsm).get(key) == self.data.get(key)
    }

    /// All is as it should be: the files are worth the data, and the worker
    /// knows the sstables or will be told of them.
    pub open spec fn sound(self) -> bool {
        &&& self.lsm.wf()
        &&& self.worker.wf()
        &&& kept(self.lsm, self.tables, self.log, self.data)
        &&& contents(self.found(), self.log) == self.data
        &&& self.lsm.phase is Truncating ==> self.cut is None
        &&& self.agrees()
        &&& follows(self.worker, self.tables)
        &&& self.inbox_is_true()
    }

    /// This can happen now.
    pub open spec fn allows(self, happening: Move<K, V>) -> bool {
        match happening {
            Move::Mutate(..) => self.lsm.phase is Idle,
            Move::Flush => self.lsm.phase is Idle,
            Move::Step(entries) => {
                &&& self.lsm.accepts(true)
                &&& self.lsm.phase is Writing ==> ascending(entries) && map_of(entries)
                    == self.lsm.memtable
            },
            Move::Fail(entries, left) => {
                &&& self.lsm.accepts(false)
                &&& left matches Some(n) ==> {
                    &&& self.lsm.phase is Writing
                    &&& ascending(entries)
                    &&& map_of(entries) == self.lsm.memtable
                    &&& n <= entries.len()
                }
            },
            Move::Work(event, merged) => {
                &&& self.worker.accepts(event)
                &&& ascending(merged)
                &&& map_of(merged) == self.worker.merged
                &&& match event {
                    WorkerEvent::TableRead(entries) => {
                        &&& self.worker.action() matches WorkerAction::ReadTable(id)
                        &&& entries@ == self.tables[id]
                    },
                    WorkerEvent::Message(message) => message is NewSST ==> self.inbox.len() > 0
                        && message == self.inbox[0],
                    _ => true,
                }
            },
        }
    }

    /// The state afterwards.
    pub open spec fn moved(self, happening: Move<K, V>) -> Self {
        match happening {
            Move::Mutate(key, value) => System { lsm: self.lsm.mutating(key, value), ..self },
            Move::Flush => System { lsm: self.lsm.flushing(), ..self },
            Move::Step(entries) => System {
                lsm: self.lsm.resumed(true).0,
                tables: crate::durability::tables_after(self.lsm, self.tables, entries),
                log: crate::durability::log_after(self.lsm, self.log),
                inbox: if self.lsm.phase is Writing {
                    self.inbox.push(self.lsm.notice())
                } else {
                    self.inbox
                },
                cut: if self.lsm.phase is Writing {
                    None
                } else {
                    self.cut
                },
                data: data_after(self.lsm, self.data),
                failed: match (self.lsm.phase, self.lsm.pending) {
                    (Phase::Logging, Some(entry)) => self.failed.remove(entry.0),
                    _ => self.failed,
                },
                ..self
            },
            Move::Fail(entries, left) => System {
                lsm: self.lsm.resumed(false).0,
                cut: match left {
                    Some(n) => Some(entries.take(n as int)),
                    None => self.cut,
                },
                failed: match (self.lsm.phase, self.lsm.pending) {
                    (Phase::Logging, _) => self.failed,
                    (_, Some(entry)) => self.failed.insert(entry.0),
                    (_, None) => self.failed,
                },
                ..self
            },
            Move::Work(event, merged) => System {
                worker: self.worker.after(event),
                tables: crate::compaction::tables_after(self.worker, self.tables, event, merged),
                inbox: match event {
                    WorkerEvent::Message(WorkerMessage::NewSST { .. }) => self.inbox.drop_first(),
                    _ => self.inbox,
                },
                ..self
            },
        }
    }
}

/// One thing after the other can happen.
pub open spec fn allows_all<const K: usize, const V: usize>(
    system: System<K, V>,
    history: Seq<Move<K, V>>,
) -> bool
    decreases history.len(),
{
    history.len() > 0 ==> {
        &&& allows_all(system, history.drop_last())
        &&& reached(system, history.drop_last()).allows(history.last())
    }
}

/// The state after all that has happened.
pub open spec fn reached<const K: usize, const V: usize>(
    system: System<K, V>,
    history: Seq<Move<K, V>>,
) -> System<K, V>
    decreases history.len(),
{
    if history.len() == 0 {
        system
    } else {
        reached(system, history.drop_last()).moved(history.last())
    }
}

/// The entries that were logged in a history, in order.
pub open spec fn logged_in<const K: usize, const V: usize>(
    system: System<K, V>,
    history: Seq<Move<K, V>>,
) -> Seq<([u8; K], Option<[u8; V]>)>
    decreases history.len(),
{
    if history.len() == 0 {
        Seq::empty()
    } else {
        let before = reached(system, history.drop_last());
        let front = logged_in(system, history.drop_last());
        match (history.last(), before.lsm.phase, before.lsm.pending) {
            (Move::Step(_), Phase::Logging, Some(entry)) => front.push(entry),
            _ => front,
        }
    }
}

/// In a history, an insertion or removal of the key has failed after its entry
/// was logged.
pub open spec fn failed_in<const K: usize, const V: usize>(
    system: System<K, V>,
    history: Seq<Move<K, V>>,
    key: [u8; K],
) -> bool {
    exists|i: int|
        0 <= i < history.len() && #[trigger] history[i] is Fail && {
            let before = reached(system, history.take(i)).lsm;
            &&& !(before.phase is Logging)
            &&& before.pending matches Some(entry) && entry.0 == key
        }
}

/// The worker takes a step.
proof fn lemma_work<const K: usize, const V: usize>(
    system: System<K, V>,
    event: WorkerEvent<K, V>,
    merged: Seq<([u8; K], Option<[u8; V]>)>,
)
    requires
        system.sound(),
        system.allows(Move::Work(event, merged)),
    ensures
        system.moved(Move::Work(event, merged)).sound(),
{
    let next = system.moved(Move::Work(event, merged));
    let told = event matches WorkerEvent::Message(message) && message is NewSST;
    assert(truthful(system.worker, system.tables, event)) by {
        if told {
            let id = id_in(system.inbox[0]);
            assert forall|newer: u64| #[trigger]
                system.tables.contains_key(newer) && !system.worker.directory.contains_key(
                    newer,
                ) implies id <= newer by {
                let i = choose|i: int|
                    0 <= i < system.inbox.len() && id_in(#[trigger] system.inbox[i]) == newer;
                assert(i > 0 ==> id_in(system.inbox[0]) < id_in(system.inbox[i]));
            }
        }
    }
    law_compaction_keeps_the_data(system.worker, system.tables, event, merged);
    law_compaction_keeps_the_database_backed(
        system.lsm,
        system.log,
        system.data,
        system.worker,
        system.tables,
        event,
        merged,
    );
    if let Some(part) = system.cut {
        law_new_sstable_is_read_last(system.tables, system.lsm.next_sstable_id, part);
        law_new_sstable_is_read_last(next.tables, system.lsm.next_sstable_id, part);
    }
    lemma_worker_stays_valid(system.worker, event);
    if told {
        let id = id_in(system.inbox[0]);
        assert forall|i: int| 0 <= i < next.inbox.len() implies next.tells_the_truth(
            #[trigger] next.inbox[i],
        ) by {
            assert(next.inbox[i] == system.inbox[i + 1]);
            assert(id_in(system.inbox[0]) < id_in(system.inbox[i + 1]));
        }
        assert forall|i: int, j: int| 0 <= i < j < next.inbox.len() implies id_in(
            #[trigger] next.inbox[i],
        ) < id_in(#[trigger] next.inbox[j]) by {
            assert(next.inbox[i] == system.inbox[i + 1]);
            assert(next.inbox[j] == system.inbox[j + 1]);
        }
        assert forall|other: u64| #[trigger]
            next.tables.contains_key(other) && !next.worker.directory.contains_key(
                other,
            ) implies exists|i: int|
            0 <= i < next.inbox.len() && id_in(#[trigger] next.inbox[i]) == other by {
            assert(system.tables.contains_key(other));
            let i = choose|i: int|
                0 <= i < system.inbox.len() && id_in(#[trigger] system.inbox[i]) == other;
            assert(i > 0);
            assert(next.inbox[i - 1] == system.inbox[i]);
        }
    } else {
        assert(next.inbox == system.inbox);
        assert forall|i: int| 0 <= i < next.inbox.len() implies next.tells_the_truth(
            #[trigger] next.inbox[i],
        ) by {
            let message = system.inbox[i];
            assert(!system.worker.directory.contains_key(id_in(message)));
        }
        assert forall|other: u64| #[trigger]
            next.tables.contains_key(other) && !next.worker.directory.contains_key(
                other,
            ) implies exists|i: int|
            0 <= i < next.inbox.len() && id_in(#[trigger] next.inbox[i]) == other by {
            assert(system.tables.contains_key(other));
            assert(!system.worker.directory.contains_key(other));
        }
    }
}

/// What the database asked for is done.
proof fn lemma_step<const K: usize, const V: usize>(
    system: System<K, V>,
    entries: Seq<([u8; K], Option<[u8; V]>)>,
)
    requires
        system.sound(),
        system.allows(Move::Step(entries)),
    ensures
        system.moved(Move::Step(entries)).sound(),
{
    let next = system.moved(Move::Step(entries));
    law_step_keeps_what_is_logged(system.lsm, system.tables, system.log, system.data, entries);
    if system.lsm.phase is Logging {
        let entry = system.lsm.pending->0;
        lemma_logged(system.lsm, system.tables, system.log, system.data, entry);
        let before = records_of::<K, V>(system.log);
        assert(before.push(entry).drop_last() =~= before);
        assert forall|key: [u8; K]| !next.failed.contains(key) implies #[trigger] target(
            next.lsm,
        ).get(key) == next.data.get(key) by {
            if key != entry.0 {
                assert(target(system.lsm).get(key) == system.data.get(key));
            }
        }
    } else {
        assert(target(next.lsm) == target(system.lsm));
    }
    if system.lsm.phase is Writing {
        let id = system.lsm.next_sstable_id;
        law_new_sstable_does_not_disturb(system.worker, system.tables, id, entries);
        law_notice_is_true(system.lsm, entries);
        assert(!system.tables.contains_key(id));
        assert(!system.worker.directory.contains_key(id));
        let last = system.inbox.len() as int;
        assert(next.inbox[last] == system.lsm.notice());
        assert forall|i: int| 0 <= i < next.inbox.len() implies next.tells_the_truth(
            #[trigger] next.inbox[i],
        ) by {
            if i < last {
                assert(next.inbox[i] == system.inbox[i]);
            }
        }
        assert forall|i: int, j: int| 0 <= i < j < next.inbox.len() implies id_in(
            #[trigger] next.inbox[i],
        ) < id_in(#[trigger] next.inbox[j]) by {
            assert(next.inbox[i] == system.inbox[i]);
            assert(system.tables.contains_key(id_in(system.inbox[i])));
            if j < last {
                assert(next.inbox[j] == system.inbox[j]);
            }
        }
        assert forall|other: u64| #[trigger]
            next.tables.contains_key(other) && !next.worker.directory.contains_key(
                other,
            ) implies exists|i: int|
            0 <= i < next.inbox.len() && id_in(#[trigger] next.inbox[i]) == other by {
            if other == id {
                assert(id_in(next.inbox[last]) == other);
            } else {
                assert(system.tables.contains_key(other));
                let i = choose|i: int|
                    0 <= i < system.inbox.len() && id_in(#[trigger] system.inbox[i]) == other;
                assert(next.inbox[i] == system.inbox[i]);
            }
        }
    }
}

/// What the database asked for has failed.
proof fn lemma_fail<const K: usize, const V: usize>(
    system: System<K, V>,
    entries: Seq<([u8; K], Option<[u8; V]>)>,
    left: Option<nat>,
)
    requires
        system.sound(),
        system.allows(Move::Fail(entries, left)),
    ensures
        system.moved(Move::Fail(entries, left)).sound(),
{
    let next = system.moved(Move::Fail(entries, left));
    law_failed_step_keeps_the_data(system.lsm, system.tables, system.log, system.data);
    if let Some(n) = left {
        lemma_cut_sstable(
            system.lsm,
            system.tables,
            system.log,
            system.data,
            entries,
            n as int,
        );
    }
    assert forall|key: [u8; K]| !next.failed.contains(key) implies #[trigger] target(next.lsm).get(
        key,
    ) == next.data.get(key) by {
        assert(target(system.lsm).get(key) == system.data.get(key));
    }
}

/// Whatever happens, all stays as it should be.
pub proof fn law_every_move_keeps_the_system_sound<const K: usize, const V: usize>(
    system: System<K, V>,
    happening: Move<K, V>,
)
    requires
        system.sound(),
        system.allows(happening),
    ensures
        system.moved(happening).sound(),
{
    match happening {
        Move::Step(entries) => {
            lemma_step(system, entries);
        },
        Move::Work(event, merged) => {
            lemma_work(system, event, merged);
        },
        Move::Fail(entries, left) => {
            lemma_fail(system, entries, left);
        },
        _ => {
            assert(target(system.moved(happening).lsm) == target(system.lsm));
        },
    }
}

/// A database that was recovered, with its worker and its files. The log has
/// been cut off behind its intact records.
pub open spec fn recovered_system<const K: usize, const V: usize>(
    tables: Map<u64, Seq<([u8; K], Option<[u8; V]>)>>,
    log: Seq<u8>,
    config: Config,
) -> System<K, V> {
    System {
        lsm: recovered_lsm(tables, log, config),
        worker: recovered_worker(tables, log, config),
        tables,
        log: log.take(intact_len::<K, V>(log) as int),
        inbox: Seq::empty(),
        cut: None,
        data: contents(tables, log),
        failed: Set::empty(),
    }
}

/// Whatever log and sstables a database was recovered from, all is as it should
/// be afterwards.
pub proof fn law_recovered_system_is_sound<const K: usize, const V: usize>(
    tables: Map<u64, Seq<([u8; K], Option<[u8; V]>)>>,
    log: Seq<u8>,
    config: Config,
)
    requires
        tables.dom().finite(),
        !tables.contains_key(u64::MAX),
        forall|id: u64| #[trigger]
            tables.contains_key(id) ==> sstable_len::<K, V>(tables[id].len()) <= u64::MAX,
        log.len() <= usize::MAX,
    ensures
        recovered_system(tables, log, config).sound(),
{
    law_recovered_database_is_backed(tables, log, config);
    law_recovered_worker_follows(tables, log, config);
    law_cut_behind_intact_records::<K, V>(log);
    assert(sizes(tables).dom() =~= tables.dom());
}

/// After any history, recovering with whatever options gives the data with
/// every entry that was logged, applied in order. Between two operations, these
/// are the data that the database holds, but for the failed keys.
pub proof fn law_the_data_survive_any_history<const K: usize, const V: usize>(
    system: System<K, V>,
    history: Seq<Move<K, V>>,
    config: Config,
)
    requires
        system.sound(),
        allows_all(system, history),
    ensures
        reached(system, history).sound(),
        ({
            let end = reached(system, history);
            let recovered = recovered_lsm(end.found(), end.log, config).db;
            &&& recovered == end.data
            &&& end.data == replay(system.data, logged_in(system, history))
            &&& end.lsm.phase is Idle ==> forall|key: [u8; K]|
                !end.failed.contains(key) ==> #[trigger] recovered.get(key) == end.lsm.db.get(key)
            &&& end.lsm.phase is Idle && end.failed == Set::<[u8; K]>::empty() ==> recovered
                == end.lsm.db
        }),
    decreases history.len(),
{
    let end = reached(system, history);
    if history.len() > 0 {
        let before = reached(system, history.drop_last());
        law_the_data_survive_any_history(system, history.drop_last(), config);
        law_every_move_keeps_the_system_sound(before, history.last());
        let logged = logged_in(system, history);
        if before.lsm.phase is Logging && history.last() is Step {
            assert(logged.drop_last() =~= logged_in(system, history.drop_last()));
        }
    }
    if end.lsm.phase is Idle {
        assert forall|key: [u8; K]| !end.failed.contains(key) implies #[trigger] end.data.get(key)
            == end.lsm.db.get(key) by {
            assert(target(end.lsm).get(key) == end.data.get(key));
        }
        if end.failed == Set::<[u8; K]>::empty() {
            lemma_same_map(end.data, end.lsm.db);
        }
    }
}

/// Maps that give the same for each key are the same.
proof fn lemma_same_map<const K: usize, const V: usize>(
    a: Map<[u8; K], [u8; V]>,
    b: Map<[u8; K], [u8; V]>,
)
    requires
        forall|key: [u8; K]| #[trigger] a.get(key) == b.get(key),
    ensures
        a == b,
{
    assert forall|key: [u8; K]|
        #![trigger a.dom().contains(key)]
        #![trigger b.dom().contains(key)]
        a.dom().contains(key) == b.dom().contains(key) && (a.dom().contains(key) ==> a[key]
            == b[key]) by {
        assert(a.get(key) == b.get(key));
    }
    assert(a =~= b);
}

/// Only keys whose insertion or removal has failed after its entry was logged
/// can be among the failed ones.
pub proof fn law_only_failed_keys_differ<const K: usize, const V: usize>(
    system: System<K, V>,
    history: Seq<Move<K, V>>,
    key: [u8; K],
)
    requires
        reached(system, history).failed.contains(key),
    ensures
        system.failed.contains(key) || failed_in(system, history, key),
    decreases history.len(),
{
    if history.len() > 0 {
        let front = history.drop_last();
        let before = reached(system, front);
        if before.failed.contains(key) {
            law_only_failed_keys_differ(system, front, key);
            if failed_in(system, front, key) {
                let i = choose|i: int|
                    0 <= i < front.len() && #[trigger] front[i] is Fail && {
                        let before = reached(system, front.take(i)).lsm;
                        &&& !(before.phase is Logging)
                        &&& before.pending matches Some(entry) && entry.0 == key
                    };
                assert(history[i] == front[i]);
                assert(history.take(i) =~= front.take(i));
            }
        } else {
            assert(history[history.len() - 1] is Fail);
            assert(history.take(history.len() - 1) =~= front);
        }
    }
}

/// What is done after a recovery, from whatever log and sstables, is not lost:
/// recovering once more gives what the first recovery gave, with every entry
/// that was logged since, applied in order. If no insertion or removal has
/// failed after its entry was logged, then these are, between two operations,
/// the data that the database holds.
pub proof fn law_recovery_after_recovery<const K: usize, const V: usize>(
    tables: Map<u64, Seq<([u8; K], Option<[u8; V]>)>>,
    log: Seq<u8>,
    config: Config,
    history: Seq<Move<K, V>>,
    later_config: Config,
)
    requires
        tables.dom().finite(),
        !tables.contains_key(u64::MAX),
        forall|id: u64| #[trigger]
            tables.contains_key(id) ==> sstable_len::<K, V>(tables[id].len()) <= u64::MAX,
        log.len() <= usize::MAX,
        allows_all(recovered_system(tables, log, config), history),
    ensures
        ({
            let start = recovered_system(tables, log, config);
            let end = reached(start, history);
            let recovered = recovered_lsm(end.found(), end.log, later_config).db;
            &&& recovered == replay(start.lsm.db, logged_in(start, history))
            &&& end.lsm.phase is Idle ==> forall|key: [u8; K]|
                !failed_in(start, history, key) ==> #[trigger] recovered.get(key)
                    == end.lsm.db.get(key)
            &&& end.lsm.phase is Idle && (forall|key: [u8; K]| !failed_in(start, history, key))
                ==> recovered == end.lsm.db
        }),
{
    let start = recovered_system(tables, log, config);
    let end = reached(start, history);
    law_recovered_system_is_sound(tables, log, config);
    law_the_data_survive_any_history(start, history, later_config);
    assert forall|key: [u8; K]| #[trigger] end.failed.contains(key) implies failed_in(
        start,
        history,
        key,
    ) by {
        law_only_failed_keys_differ(start, history, key);
    }
    if forall|key: [u8; K]| !failed_in(start, history, key) {
        assert(end.failed =~= Set::<[u8; K]>::empty());
    }
}

} // verus!
