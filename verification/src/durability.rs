//! What the files on disk are worth to the database.
//!
//! The laws here relate the steps of the database and of the worker to the
//! files: whatever step comes next, recovering from the files gives the data
//! that the database holds.
use crate::config::Config;
use crate::directory::{lemma_sorted_ids, sorted_ids};
use crate::disk::{contents, law_new_sstable_is_read_last, stored};
use crate::lsm::{id_after, recovered_lsm, LsmAction, LsmState, Phase};
use crate::model::{
    apply, apply_latest, lemma_apply_nothing, lemma_apply_twice, lemma_overlay_ascending,
    lemma_replay_is_latest, overlay, replay,
};
use crate::ordered_map::{ascending, key_lt, lemma_value_at, map_of};
use crate::record::{
    bytes_of_records, intact_len, law_appended_bytes_are_read_after, law_cut_behind_intact_records,
    law_cut_records_are_a_prefix, law_record_read_back, law_records_read_back, record_bytes,
    record_len, records_of,
};
use crate::worker::WorkerMessage;
use vstd::prelude::*;

verus! {

/// The data that the database is to hold when the operation that is going on
/// is done: the entry counts from when it is in the log.
pub open spec fn target<const K: usize, const V: usize>(lsm: LsmState<K, V>) -> Map<
    [u8; K],
    [u8; V],
> {
    match (lsm.phase, lsm.pending) {
        (Phase::Idle, _) => lsm.db,
        (Phase::Logging, _) => lsm.db,
        (_, Some(entry)) => apply(lsm.db, entry),
        (_, None) => lsm.db,
    }
}

/// The files are worth some data: with the log, and also with the memtable in
/// the place of the log.
pub open spec fn kept<const K: usize, const V: usize>(
    lsm: LsmState<K, V>,
    tables: Map<u64, Seq<([u8; K], Option<[u8; V]>)>>,
    log: Seq<u8>,
    data: Map<[u8; K], [u8; V]>,
) -> bool {
    &&& tables.dom().finite()
    &&& forall|id: u64| #[trigger] tables.contains_key(id) ==> id < lsm.next_sstable_id
    &&& log.len() == intact_len::<K, V>(log)
    &&& log.len() == lsm.dirty_bytes
    &&& contents(tables, log) == data
    &&& apply_latest(stored(tables), lsm.memtable) == data
}

/// The files are worth the data of the database.
pub open spec fn backed<const K: usize, const V: usize>(
    lsm: LsmState<K, V>,
    tables: Map<u64, Seq<([u8; K], Option<[u8; V]>)>>,
    log: Seq<u8>,
) -> bool {
    kept(lsm, tables, log, target(lsm))
}

/// The data once what the database asks for has been done: an entry counts from
/// when it is in the log.
pub open spec fn data_after<const K: usize, const V: usize>(
    lsm: LsmState<K, V>,
    data: Map<[u8; K], [u8; V]>,
) -> Map<[u8; K], [u8; V]> {
    match (lsm.phase, lsm.pending) {
        (Phase::Logging, Some(entry)) => apply(data, entry),
        _ => data,
    }
}

/// The sstables once what the database asks for has been done, where `entries`
/// are those of the memtable.
pub open spec fn tables_after<const K: usize, const V: usize>(
    lsm: LsmState<K, V>,
    tables: Map<u64, Seq<([u8; K], Option<[u8; V]>)>>,
    entries: Seq<([u8; K], Option<[u8; V]>)>,
) -> Map<u64, Seq<([u8; K], Option<[u8; V]>)>> {
    if lsm.phase is Writing {
        tables.insert(lsm.next_sstable_id, entries)
    } else {
        tables
    }
}

/// The log once what the database asks for has been done.
pub open spec fn log_after<const K: usize, const V: usize>(
    lsm: LsmState<K, V>,
    log: Seq<u8>,
) -> Seq<u8> {
    match (lsm.phase, lsm.pending) {
        (Phase::Logging, Some(entry)) => log + record_bytes(entry.0, entry.1),
        (Phase::Truncating, _) => Seq::empty(),
        _ => log,
    }
}

/// Recovering, with whatever options, gives the data that the database holds.
pub proof fn law_recovery_gives_the_data_back<const K: usize, const V: usize>(
    lsm: LsmState<K, V>,
    tables: Map<u64, Seq<([u8; K], Option<[u8; V]>)>>,
    log: Seq<u8>,
    config: Config,
)
    requires
        backed(lsm, tables, log),
        lsm.phase is Idle,
    ensures
        recovered_lsm(tables, log, config).db == lsm.db,
{
}

/// An operation that starts leaves the files worth the data.
pub proof fn law_start_keeps_the_data<const K: usize, const V: usize>(
    lsm: LsmState<K, V>,
    tables: Map<u64, Seq<([u8; K], Option<[u8; V]>)>>,
    log: Seq<u8>,
    key: [u8; K],
    value: Option<[u8; V]>,
)
    requires
        lsm.wf(),
        lsm.phase is Idle,
        backed(lsm, tables, log),
    ensures
        backed(lsm.mutating(key, value), tables, log),
        backed(lsm.flushing(), tables, log),
{
}

/// Appending the entry of an operation to the log.
pub proof fn lemma_logged<const K: usize, const V: usize>(
    lsm: LsmState<K, V>,
    tables: Map<u64, Seq<([u8; K], Option<[u8; V]>)>>,
    log: Seq<u8>,
    data: Map<[u8; K], [u8; V]>,
    entry: ([u8; K], Option<[u8; V]>),
)
    requires
        lsm.wf(),
        lsm.phase is Logging,
        lsm.pending == Some(entry),
        lsm.accepts(true),
        kept(lsm, tables, log, data),
    ensures
        ({
            let longer = log + record_bytes(entry.0, entry.1);
            &&& records_of::<K, V>(longer) == records_of::<K, V>(log).push(entry)
            &&& longer.len() == intact_len::<K, V>(longer)
            &&& longer.len() == lsm.logged().dirty_bytes
            &&& contents(tables, longer) == apply(data, entry)
            &&& apply_latest(stored(tables), lsm.logged().memtable) == apply(data, entry)
        }),
{
    let record = record_bytes(entry.0, entry.1);
    let one = seq![entry];
    let n = record_len::<K, V>();
    assert(one.drop_last() =~= Seq::<([u8; K], Option<[u8; V]>)>::empty());
    reveal_with_fuel(bytes_of_records, 2);
    assert(bytes_of_records(one) =~= record);
    law_records_read_back(one, Seq::<u8>::empty());
    assert(record + Seq::<u8>::empty() =~= record);
    assert(one + records_of::<K, V>(Seq::<u8>::empty()) =~= one);
    law_appended_bytes_are_read_after::<K, V>(log, record);
    law_record_read_back(entry.0, entry.1);
    let before = records_of::<K, V>(log);
    assert(records_of::<K, V>(log + record) =~= before.push(entry));
    assert(before.push(entry).drop_last() =~= before);
    assert((before.len() + 1) * n == before.len() * n + n) by (nonlinear_arith);
    assert(apply_latest(stored(tables), lsm.memtable.insert(entry.0, entry.1)) =~= apply(
        apply_latest(stored(tables), lsm.memtable),
        entry,
    ));
}

/// Writing the memtable to an sstable.
proof fn lemma_written<const K: usize, const V: usize>(
    lsm: LsmState<K, V>,
    tables: Map<u64, Seq<([u8; K], Option<[u8; V]>)>>,
    log: Seq<u8>,
    data: Map<[u8; K], [u8; V]>,
    entries: Seq<([u8; K], Option<[u8; V]>)>,
)
    requires
        kept(lsm, tables, log, data),
        ascending(entries),
        map_of(entries) == lsm.memtable,
    ensures
        stored(tables.insert(lsm.next_sstable_id, entries)) == data,
        contents(tables.insert(lsm.next_sstable_id, entries), log) == data,
{
    let base = stored(tables);
    let new = tables.insert(lsm.next_sstable_id, entries);
    let logged = records_of::<K, V>(log);
    let last = overlay(Map::empty(), logged);
    law_new_sstable_is_read_last(tables, lsm.next_sstable_id, entries);
    lemma_overlay_ascending(entries);
    lemma_apply_nothing(base);
    lemma_replay_is_latest(base, Map::empty(), entries);
    lemma_replay_is_latest(base, Map::empty(), logged);
    lemma_apply_nothing(stored(new));
    lemma_replay_is_latest(stored(new), Map::empty(), logged);
    lemma_apply_twice(base, last, last);
    assert(last.union_prefer_right(last) =~= last);
}

/// What the first entries of a memtable say of a key, the memtable says too.
proof fn lemma_first_entries<const K: usize, const V: usize>(
    entries: Seq<([u8; K], Option<[u8; V]>)>,
    n: int,
    key: [u8; K],
)
    requires
        ascending(entries),
        0 <= n <= entries.len(),
        overlay(Map::empty(), entries.take(n)).contains_key(key),
    ensures
        map_of(entries).contains_key(key),
        map_of(entries)[key] == overlay(Map::empty(), entries.take(n))[key],
{
    let part = entries.take(n);
    assert(ascending(part)) by {
        assert forall|i: int, j: int| 0 <= i < j < part.len() implies key_lt(
            (#[trigger] part[i]).0@,
            (#[trigger] part[j]).0@,
        ) by {
            assert(part[i] == entries[i] && part[j] == entries[j]);
        }
    }
    lemma_overlay_ascending(part);
    let i = choose|i: int| 0 <= i < part.len() && (#[trigger] part[i]).0 == key;
    lemma_value_at(part, i);
    assert(part[i] == entries[i]);
    lemma_value_at(entries, i);
}

/// A part of the memtable in an sstable changes nothing.
pub proof fn lemma_cut_sstable<const K: usize, const V: usize>(
    lsm: LsmState<K, V>,
    tables: Map<u64, Seq<([u8; K], Option<[u8; V]>)>>,
    log: Seq<u8>,
    data: Map<[u8; K], [u8; V]>,
    entries: Seq<([u8; K], Option<[u8; V]>)>,
    n: int,
)
    requires
        kept(lsm, tables, log, data),
        ascending(entries),
        map_of(entries) == lsm.memtable,
        0 <= n <= entries.len(),
    ensures
        contents(tables.insert(lsm.next_sstable_id, entries.take(n)), log) == data,
{
    let base = stored(tables);
    let part = entries.take(n);
    let new = tables.insert(lsm.next_sstable_id, part);
    let some = overlay(Map::empty(), part);
    let logged = records_of::<K, V>(log);
    let last = overlay(Map::empty(), logged);
    law_new_sstable_is_read_last(tables, lsm.next_sstable_id, part);
    lemma_apply_nothing(base);
    lemma_replay_is_latest(base, Map::empty(), part);
    lemma_replay_is_latest(base, Map::empty(), logged);
    lemma_apply_nothing(stored(new));
    lemma_replay_is_latest(stored(new), Map::empty(), logged);
    assert(stored(new) == apply_latest(base, some));
    assert(apply_latest(base, last) == data);
    let after = apply_latest(apply_latest(base, some), last);
    assert forall|key: [u8; K]|
        #![trigger after.dom().contains(key)]
        #![trigger data.dom().contains(key)]
        after.dom().contains(key) == data.dom().contains(key) && (data.dom().contains(key)
            ==> after[key] == data[key]) by {
        if some.contains_key(key) && !last.contains_key(key) {
            lemma_first_entries(entries, n, key);
            assert(apply_latest(base, lsm.memtable).dom().contains(key) == data.dom().contains(key));
        }
    }
    assert(after =~= data);
}

/// If the write of a new sstable is interrupted, so that it holds some of the
/// first entries of the memtable only, nothing is lost: the log still has all
/// of them. The file is taken to hold the number of its records at least;
/// without that, recovery tells that it is truncated.
pub proof fn law_interrupted_sstable_loses_nothing<const K: usize, const V: usize>(
    lsm: LsmState<K, V>,
    tables: Map<u64, Seq<([u8; K], Option<[u8; V]>)>>,
    log: Seq<u8>,
    entries: Seq<([u8; K], Option<[u8; V]>)>,
    n: int,
)
    requires
        backed(lsm, tables, log),
        ascending(entries),
        map_of(entries) == lsm.memtable,
        0 <= n <= entries.len(),
    ensures
        contents(tables.insert(lsm.next_sstable_id, entries.take(n)), log) == target(lsm),
{
    lemma_cut_sstable(lsm, tables, log, target(lsm), entries, n);
}

/// A step of an operation, if what was asked for has been done, leaves the
/// files worth the data with every entry that has been logged.
pub proof fn law_step_keeps_what_is_logged<const K: usize, const V: usize>(
    lsm: LsmState<K, V>,
    tables: Map<u64, Seq<([u8; K], Option<[u8; V]>)>>,
    log: Seq<u8>,
    data: Map<[u8; K], [u8; V]>,
    entries: Seq<([u8; K], Option<[u8; V]>)>,
)
    requires
        lsm.wf(),
        lsm.accepts(true),
        kept(lsm, tables, log, data),
        lsm.phase is Writing ==> ascending(entries) && map_of(entries) == lsm.memtable,
    ensures
        kept(
            lsm.resumed(true).0,
            tables_after(lsm, tables, entries),
            log_after(lsm, log),
            data_after(lsm, data),
        ),
{
    match lsm.phase {
        Phase::Logging => {
            lemma_logged(lsm, tables, log, data, lsm.pending->0);
        },
        Phase::Writing => {
            lemma_written(lsm, tables, log, data, entries);
            lemma_apply_nothing(stored(tables.insert(lsm.next_sstable_id, entries)));
        },
        Phase::Truncating => {
            let empty = Seq::<u8>::empty();
            assert(intact_len::<K, V>(empty) == 0) by {
                let n = record_len::<K, V>();
                assert(0 * n == 0) by (nonlinear_arith);
            }
            lemma_apply_nothing(stored(tables));
        },
        _ => {},
    }
}

/// A step of an operation leaves the files worth the data of the database, if
/// what was asked for has been done.
pub proof fn law_step_keeps_the_data<const K: usize, const V: usize>(
    lsm: LsmState<K, V>,
    tables: Map<u64, Seq<([u8; K], Option<[u8; V]>)>>,
    log: Seq<u8>,
    entries: Seq<([u8; K], Option<[u8; V]>)>,
)
    requires
        lsm.wf(),
        lsm.accepts(true),
        backed(lsm, tables, log),
        lsm.phase is Writing ==> ascending(entries) && map_of(entries) == lsm.memtable,
    ensures
        backed(lsm.resumed(true).0, tables_after(lsm, tables, entries), log_after(lsm, log)),
{
    law_step_keeps_what_is_logged(lsm, tables, log, target(lsm), entries);
}

/// A step that has failed, without a change to the files, leaves them worth
/// what they were worth. That is the data of the database; but where the entry
/// of an insertion or a removal is in the log already, it is the data with that
/// entry.
pub proof fn law_failed_step_keeps_the_data<const K: usize, const V: usize>(
    lsm: LsmState<K, V>,
    tables: Map<u64, Seq<([u8; K], Option<[u8; V]>)>>,
    log: Seq<u8>,
    data: Map<[u8; K], [u8; V]>,
)
    requires
        lsm.wf(),
        lsm.accepts(false),
        kept(lsm, tables, log, data),
    ensures
        kept(lsm.resumed(false).0, tables, log, data),
        lsm.phase is Logging || lsm.pending is None ==> target(lsm.resumed(false).0) == target(lsm),
        lsm.pending is Some && !(lsm.phase is Logging) ==> target(lsm) == apply(
            target(lsm.resumed(false).0),
            lsm.pending->0,
        ),
{
}

/// A database that was recovered has the files for its data, once the log has
/// been cut off behind its intact records.
pub proof fn law_recovered_database_is_backed<const K: usize, const V: usize>(
    tables: Map<u64, Seq<([u8; K], Option<[u8; V]>)>>,
    log: Seq<u8>,
    config: Config,
)
    requires
        tables.dom().finite(),
        !tables.contains_key(u64::MAX),
        log.len() <= usize::MAX,
    ensures
        backed(
            recovered_lsm(tables, log, config),
            tables,
            log.take(intact_len::<K, V>(log) as int),
        ),
        recovered_lsm(tables, log, config).wf(),
{
    let cut = log.take(intact_len::<K, V>(log) as int);
    law_cut_behind_intact_records::<K, V>(log);
    lemma_sorted_ids(tables.dom());
    let ids = sorted_ids(tables.dom());
    assert forall|id: u64| #[trigger] tables.contains_key(id) implies id < id_after(tables.dom()) by {
        assert(ids.to_set().contains(id));
        let i = choose|i: int| 0 <= i < ids.len() && ids[i] == id;
        assert(ids[i] <= ids.last());
    }
    if ids.len() > 0 {
        assert(ids.to_set().contains(ids.last()));
        assert(tables.contains_key(ids.last()));
    }
    lemma_apply_nothing(stored(tables));
    lemma_replay_is_latest(stored(tables), Map::empty(), records_of::<K, V>(log));
}

/// If the end of the log is lost, then the last entries are lost, and no
/// others.
pub proof fn law_lost_end_of_log<const K: usize, const V: usize>(
    tables: Map<u64, Seq<([u8; K], Option<[u8; V]>)>>,
    log: Seq<u8>,
    len: nat,
)
    requires
        log.len() == intact_len::<K, V>(log),
        len <= log.len(),
    ensures
        contents(tables, log.take(len as int)) == replay(
            stored(tables),
            records_of::<K, V>(log).take(len as int / record_len::<K, V>() as int),
        ),
{
    law_cut_records_are_a_prefix::<K, V>(log, len);
}

/// If the append of a record is interrupted, so that less than the record is in
/// the log, the files are worth what they were worth before.
pub proof fn law_interrupted_append_loses_nothing<const K: usize, const V: usize>(
    lsm: LsmState<K, V>,
    tables: Map<u64, Seq<([u8; K], Option<[u8; V]>)>>,
    log: Seq<u8>,
    data: Map<[u8; K], [u8; V]>,
    part: Seq<u8>,
)
    requires
        kept(lsm, tables, log, data),
        part.len() < record_len::<K, V>(),
    ensures
        contents(tables, log + part) == data,
{
    law_appended_bytes_are_read_after::<K, V>(log, part);
    assert(records_of::<K, V>(log) + records_of::<K, V>(part) =~= records_of::<K, V>(log));
}

/// How many more steps an operation can take.
pub open spec fn steps_left(phase: Phase) -> nat {
    match phase {
        Phase::Idle => 0,
        Phase::Truncating => 1,
        Phase::Writing => 2,
        Phase::Syncing => 3,
        Phase::Logging => 4,
    }
}

/// How an operation ends if all that it asks for is done.
pub open spec fn completed<const K: usize, const V: usize>(lsm: LsmState<K, V>) -> (
    LsmState<K, V>,
    LsmAction<V>,
)
    decreases steps_left(lsm.phase),
{
    let (next, action) = lsm.resumed(true);
    if lsm.phase is Idle || next.phase is Idle {
        (next, action)
    } else {
        completed(next)
    }
}

/// An insertion or removal that comes to its end has changed the data by its
/// entry, and gives the previous value of the key. The log is longer by the
/// record, and no longer than `max_log_length`: if it has become longer, the
/// memtable was written to the sstable with the next id, and the log is empty.
pub proof fn law_mutation_completes<const K: usize, const V: usize>(
    lsm: LsmState<K, V>,
    key: [u8; K],
    value: Option<[u8; V]>,
)
    requires
        lsm.wf(),
        lsm.phase is Idle,
        lsm.dirty_bytes + record_len::<K, V>() <= usize::MAX,
    ensures
        ({
            let (end, answer) = completed(lsm.mutating(key, value));
            let longer = lsm.dirty_bytes + 5 + K + V;
            &&& end.phase is Idle
            &&& end.wf()
            &&& end.db == apply(lsm.db, (key, value))
            &&& end.db == match value {
                Some(v) => lsm.db.insert(key, v),
                None => lsm.db.remove(key),
            }
            &&& answer == LsmAction::Done(lsm.db.get(key))
            &&& answer == LsmAction::Done(
                if lsm.db.contains_key(key) {
                    Some(lsm.db[key])
                } else {
                    None
                },
            )
            &&& !end.log_is_full()
            &&& end.dirty_bytes <= end.config.max_log_length
            &&& end.config == lsm.config
            &&& longer <= lsm.config.max_log_length ==> {
                &&& end.dirty_bytes == longer
                &&& end.memtable == lsm.memtable.insert(key, value)
                &&& end.next_sstable_id == lsm.next_sstable_id
            }
            &&& longer > lsm.config.max_log_length ==> {
                &&& end.dirty_bytes == 0
                &&& end.memtable == Map::<[u8; K], Option<[u8; V]>>::empty()
                &&& end.next_sstable_id == (lsm.next_sstable_id + 1) as u64
            }
        }),
{
    reveal_with_fuel(completed, 5);
}

/// A flush that comes to its end has left the data as it was. If the log was
/// longer than `max_log_length`, the memtable was written to the sstable with
/// the next id, and the log is empty; else nothing has changed.
pub proof fn law_flush_completes<const K: usize, const V: usize>(lsm: LsmState<K, V>)
    requires
        lsm.wf(),
        lsm.phase is Idle,
    ensures
        ({
            let (end, answer) = completed(lsm.flushing());
            &&& end.phase is Idle
            &&& end.wf()
            &&& end.db == lsm.db
            &&& answer == LsmAction::<V>::Done(None)
            &&& !end.log_is_full()
            &&& end.dirty_bytes <= end.config.max_log_length
            &&& end.config == lsm.config
            &&& lsm.dirty_bytes <= lsm.config.max_log_length ==> end == lsm
            &&& lsm.dirty_bytes > lsm.config.max_log_length ==> {
                &&& end.dirty_bytes == 0
                &&& end.memtable == Map::<[u8; K], Option<[u8; V]>>::empty()
                &&& end.next_sstable_id == (lsm.next_sstable_id + 1) as u64
            }
        }),
{
    reveal_with_fuel(completed, 4);
}

/// A memtable is written only if the log is longer than `max_log_length`; and
/// an operation whose log is no longer than that makes nothing else durable
/// than, for a flush, the log.
pub proof fn law_only_a_long_log_is_written<const K: usize, const V: usize>(
    lsm: LsmState<K, V>,
    ok: bool,
)
    requires
        lsm.accepts(ok),
    ensures
        lsm.resumed(ok).1 is WriteSstable ==> lsm.dirty_bytes > lsm.config.max_log_length,
        lsm.resumed(ok).1 is SyncLog ==> lsm.dirty_bytes + 5 + K + V > lsm.config.max_log_length,
        ok && lsm.phase is Logging && lsm.dirty_bytes + 5 + K + V <= lsm.config.max_log_length
            ==> lsm.resumed(ok).1 is Done,
        ok && lsm.phase is Logging && lsm.dirty_bytes + 5 + K + V > lsm.config.max_log_length
            ==> lsm.resumed(ok).1 is SyncLog,
        ok && lsm.phase is Syncing && lsm.dirty_bytes <= lsm.config.max_log_length
            ==> lsm.resumed(ok).1 is Done,
        ok && lsm.phase is Syncing && lsm.dirty_bytes > lsm.config.max_log_length
            ==> lsm.resumed(ok).1 == LsmAction::<V>::WriteSstable(lsm.next_sstable_id),
{
}

/// The sstables once an action has been carried out, where `entries` are those
/// of the memtable.
pub open spec fn tables_with<const K: usize, const V: usize>(
    action: LsmAction<V>,
    tables: Map<u64, Seq<([u8; K], Option<[u8; V]>)>>,
    entries: Seq<([u8; K], Option<[u8; V]>)>,
) -> Map<u64, Seq<([u8; K], Option<[u8; V]>)>> {
    match action {
        LsmAction::WriteSstable(id) => tables.insert(id, entries),
        _ => tables,
    }
}

/// The log once an action has been carried out.
pub open spec fn log_with<const V: usize>(action: LsmAction<V>, log: Seq<u8>) -> Seq<u8> {
    match action {
        LsmAction::AppendLog(bytes) => log + bytes@,
        LsmAction::TruncateLog(_) => Seq::empty(),
        _ => log,
    }
}

/// Carrying out what an operation asks for next does to the files what its next
/// step counts on.
pub proof fn law_actions_do_what_is_counted_on<const K: usize, const V: usize>(
    lsm: LsmState<K, V>,
    ok: bool,
    tables: Map<u64, Seq<([u8; K], Option<[u8; V]>)>>,
    log: Seq<u8>,
    entries: Seq<([u8; K], Option<[u8; V]>)>,
)
    requires
        lsm.wf(),
        lsm.accepts(ok),
    ensures
        ({
            let (next, action) = lsm.resumed(ok);
            &&& next.phase is Idle <==> action is Done || action is Failed
            &&& !(action is AppendLog)
            &&& tables_with(action, tables, entries) == tables_after(next, tables, entries)
            &&& log_with(action, log) == log_after(next, log)
        }),
{
}

/// What the worker is told of a new sstable goes out after it was written, and
/// tells its id, the size of its contents, and that of the data.
pub proof fn law_notice_goes_out_with_the_sstable<const K: usize, const V: usize>(
    lsm: LsmState<K, V>,
)
    requires
        lsm.phase is Writing,
        lsm.accepts(true),
    ensures
        lsm.resumed(true).1 == LsmAction::<V>::TruncateLog(
            WorkerMessage::NewSST {
                id: lsm.next_sstable_id,
                sst_sz: (8 + lsm.memtable.len() * (5 + K + V)) as u64,
                db_sz: (lsm.db.len() * (K + V)) as u64,
            },
        ),
{
}

/// An operation can always go on, and always fail, unless a size or an id goes
/// beyond its range.
pub proof fn law_operations_can_go_on<const K: usize, const V: usize>(lsm: LsmState<K, V>)
    requires
        !(lsm.phase is Idle),
    ensures
        lsm.accepts(true) && lsm.phase is Logging ==> lsm.dirty_bytes + 5 + K + V <= usize::MAX,
        lsm.accepts(true) && lsm.phase is Writing ==> lsm.next_sstable_id < u64::MAX && 8
            + lsm.memtable.len() * (5 + K + V) <= u64::MAX && lsm.db.len() * (K + V) <= u64::MAX,
        lsm.accepts(false),
        lsm.dirty_bytes + 5 + K + V <= usize::MAX && lsm.next_sstable_id < u64::MAX && 8
            + lsm.memtable.len() * (5 + K + V) <= u64::MAX && lsm.db.len() * (K + V) <= u64::MAX
            ==> lsm.accepts(true),
{
}

/// The log is emptied only after the memtable has been written to an sstable,
/// and that is done only after the log has been made durable.
pub proof fn law_log_is_emptied_last<const K: usize, const V: usize>(
    lsm: LsmState<K, V>,
    ok: bool,
)
    ensures
        lsm.resumed(ok).1 is TruncateLog ==> ok && lsm.phase is Writing,
        lsm.resumed(ok).1 is WriteSstable ==> ok && lsm.phase is Syncing,
        !(lsm.phase is Idle) && lsm.resumed(ok).0.phase is Truncating
            ==> lsm.resumed(ok).1 is TruncateLog,
        !(lsm.phase is Idle) && lsm.resumed(ok).0.phase is Writing
            ==> lsm.resumed(ok).1 is WriteSstable,
{
}

/// An operation that fails leaves everything as it is, and a new one can start.
pub proof fn law_a_failure_changes_nothing<const K: usize, const V: usize>(lsm: LsmState<K, V>)
    requires
        lsm.accepts(false),
    ensures
        ({
            let (end, answer) = lsm.resumed(false);
            &&& answer == LsmAction::<V>::Failed
            &&& end.phase is Idle
            &&& end.pending is None
            &&& end.db == lsm.db
            &&& end.memtable == lsm.memtable
            &&& end.dirty_bytes == lsm.dirty_bytes
            &&& end.next_sstable_id == lsm.next_sstable_id
            &&& end.config == lsm.config
        }),
{
}

/// The data changes in the step in which an operation is done, and only by the
/// entry of an insertion or removal. The entry is in the memtable from the step
/// on in which it is in the log.
pub proof fn law_what_a_step_changes<const K: usize, const V: usize>(lsm: LsmState<K, V>)
    requires
        lsm.wf(),
        lsm.accepts(true),
    ensures
        ({
            let (next, action) = lsm.resumed(true);
            &&& !(action is Failed)
            &&& next.config == lsm.config
            &&& next.db == match (action, lsm.pending) {
                (LsmAction::Done(_), Some((key, Some(value)))) => lsm.db.insert(key, value),
                (LsmAction::Done(_), Some((key, None))) => lsm.db.remove(key),
                _ => lsm.db,
            }
            &&& next.memtable == match (lsm.phase, lsm.pending) {
                (Phase::Logging, Some((key, value))) => lsm.memtable.insert(key, value),
                (Phase::Writing, _) => Map::empty(),
                _ => lsm.memtable,
            }
            &&& next.dirty_bytes == match lsm.phase {
                Phase::Logging => lsm.dirty_bytes + 5 + K + V,
                Phase::Truncating => 0,
                _ => lsm.dirty_bytes as int,
            }
            &&& next.next_sstable_id == lsm.next_sstable_id + if lsm.phase is Writing {
                1int
            } else {
                0
            }
        }),
{
}

} // verus!
