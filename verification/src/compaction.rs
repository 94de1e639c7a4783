//! What compaction does to the sstables.
//!
//! The worker learns of new sstables later than they are written, and it can be
//! stopped between any two steps. The laws here say that no step of it changes
//! the data that the sstables amount to.
use crate::config::Config;
use crate::directory::{lemma_sorted_ids, sorted_ids};
use crate::disk::{
    contents, is_last_of_its_key, is_run, law_covered_sstable_can_go,
    law_merged_sstable_stands_for_its_run, silent_on, sizes, stored, tables_at,
};
use crate::durability::kept;
use crate::lsm::{recovered_worker, LsmState};
use crate::model::{
    holds, law_last_entry_decides, law_untouched_key_stays, lemma_overlay_ascending, overlay_tables,
};
use crate::ordered_map::{ascending, lemma_map_of_len, map_of};
use crate::sstable::sstable_len;
use crate::worker::{
    decidable, due_run, law_due_run_is_a_window, law_notice_is_taken_in,
    law_only_notices_tell_sizes, lemma_due_run_length, lemma_worker_stays_valid, Step,
    WorkerAction, WorkerEvent, WorkerMessage, WorkerState,
};
use vstd::prelude::*;

verus! {

/// What the worker knows is true of the sstables: their sizes, those of which
/// it has not been told are newer than the others, and in a compaction it has
/// merged what was read so far.
pub open spec fn follows<const K: usize, const V: usize>(
    worker: WorkerState<K, V>,
    tables: Map<u64, Seq<([u8; K], Option<[u8; V]>)>>,
) -> bool {
    &&& tables.dom().finite()
    &&& forall|id: u64| #[trigger]
        worker.directory.contains_key(id) ==> tables.contains_key(id) && worker.directory[id]
            == sstable_len::<K, V>(tables[id].len())
    &&& forall|id: u64, newer: u64| #[trigger]
        worker.directory.contains_key(id) && #[trigger] tables.contains_key(newer)
            && !worker.directory.contains_key(newer) ==> id < newer
    &&& worker.step is Reading ==> is_run(worker.directory.dom(), worker.run) && worker.merged
        == overlay_tables(Map::empty(), tables_at(tables, worker.run.take(worker.next)))
    &&& worker.step is Writing ==> is_run(worker.directory.dom(), worker.run) && worker.merged
        == overlay_tables(Map::empty(), tables_at(tables, worker.run))
    &&& worker.step is Removing ==> forall|i: int, key: [u8; K]|
        worker.next <= i < worker.run.len() - 1 && #[trigger] holds(tables[worker.run[i]], key)
            ==> holds(tables[worker.run.last()], key)
}

/// The event tells the truth: what was read is what the sstable holds, and
/// sstables are told of in the order of their ids.
pub open spec fn truthful<const K: usize, const V: usize>(
    worker: WorkerState<K, V>,
    tables: Map<u64, Seq<([u8; K], Option<[u8; V]>)>>,
    event: WorkerEvent<K, V>,
) -> bool {
    match event {
        WorkerEvent::TableRead(entries) => worker.action() matches WorkerAction::ReadTable(id)
            && entries@ == tables[id],
        WorkerEvent::Message(WorkerMessage::NewSST { id, sst_sz, db_sz }) => {
            &&& tables.contains_key(id)
            &&& !worker.directory.contains_key(id)
            &&& sst_sz == sstable_len::<K, V>(tables[id].len())
            &&& forall|newer: u64| #[trigger]
                tables.contains_key(newer) && !worker.directory.contains_key(newer) ==> id <= newer
        },
        _ => true,
    }
}

/// The sstables once what the worker asked for has come to an event, where
/// `merged` are the entries of the merged sstable.
pub open spec fn tables_after<const K: usize, const V: usize>(
    worker: WorkerState<K, V>,
    tables: Map<u64, Seq<([u8; K], Option<[u8; V]>)>>,
    event: WorkerEvent<K, V>,
    merged: Seq<([u8; K], Option<[u8; V]>)>,
) -> Map<u64, Seq<([u8; K], Option<[u8; V]>)>> {
    match (worker.action(), event) {
        (WorkerAction::WriteTable(id), WorkerEvent::Done) => tables.insert(id, merged),
        (WorkerAction::RemoveTable(id), WorkerEvent::Done) => tables.remove(id),
        _ => tables,
    }
}

/// The sstables that are due follow each other without a gap.
proof fn lemma_due_run(directory: Map<u64, u64>, db_sz: u64, config: Config)
    requires
        directory.dom().finite(),
        decidable(directory, db_sz, config),
    ensures
        due_run(directory, db_sz, config) matches Some(run) ==> is_run(directory.dom(), run),
{
    law_due_run_is_a_window(directory, db_sz, config);
    lemma_sorted_ids(directory.dom());
    if let Some(run) = due_run(directory, db_sz, config) {
        let ids = sorted_ids(directory.dom());
        let i = choose|i: int|
            0 <= i <= ids.len() - run.len() && run == #[trigger] ids.subrange(i, i + run.len());
        assert forall|j: int| 0 <= j < run.len() implies directory.dom().contains(
            #[trigger] run[j],
        ) by {
            assert(ids.to_set().contains(ids[i + j]));
        }
        assert forall|id: u64| #[trigger] directory.dom().contains(id) && run[0] <= id <= run.last()
            implies run.contains(id) by {
            assert(ids.to_set().contains(id));
            let j = choose|j: int| 0 <= j < ids.len() && ids[j] == id;
            assert(i <= j < i + run.len()) by {
                if j < i {
                    assert(ids[j] < ids[i]);
                }
                if j >= i + run.len() {
                    assert(ids[i + run.len() - 1] < ids[j]);
                }
            }
            assert(run[j - i] == id);
        }
    }
}

/// A step of the worker, if it has been told the truth, leaves the data that
/// the sstables amount to as it was; and what the worker knows stays true.
pub proof fn law_compaction_keeps_the_data<const K: usize, const V: usize>(
    worker: WorkerState<K, V>,
    tables: Map<u64, Seq<([u8; K], Option<[u8; V]>)>>,
    event: WorkerEvent<K, V>,
    merged: Seq<([u8; K], Option<[u8; V]>)>,
)
    requires
        worker.wf(),
        worker.accepts(event),
        follows(worker, tables),
        truthful(worker, tables, event),
        ascending(merged),
        map_of(merged) == worker.merged,
    ensures
        stored(tables_after(worker, tables, event, merged)) == stored(tables),
        follows(worker.after(event), tables_after(worker, tables, event, merged)),
{
    match (worker.step, event) {
        (Step::Writing, WorkerEvent::Done) => {
            lemma_run_written(worker, tables, merged);
        },
        (Step::Removing, WorkerEvent::Done) => {
            let id = worker.run[worker.next];
            law_covered_sstable_can_go(tables, id, worker.run.last());
            let rest = tables.remove(id);
            let next = worker.after(event);
            assert forall|i: int, key: [u8; K]|
                next.next <= i < next.run.len() - 1 && #[trigger] holds(rest[next.run[i]], key)
                implies holds(rest[next.run.last()], key) by {
                assert(rest[next.run[i]] == tables[worker.run[i]]);
            }
        },
        (Step::Reading, WorkerEvent::TableRead(entries)) => {
            let front = worker.run.take(worker.next);
            let longer = worker.run.take(worker.next + 1);
            assert(tables_at(tables, longer).drop_last() =~= tables_at(tables, front));
            assert(tables_at(tables, longer).last() == entries@);
            assert(worker.next + 1 == worker.run.len() ==> longer =~= worker.run);
        },
        (Step::Polling, WorkerEvent::Message(message)) => {
            if !(message is Stop) {
                lemma_maintained(worker.told(message), tables);
            }
        },
        (Step::Polling, WorkerEvent::Empty) => {
            lemma_maintained(worker, tables);
        },
        _ => {},
    }
}

/// The worker looks for sstables to merge.
proof fn lemma_maintained<const K: usize, const V: usize>(
    worker: WorkerState<K, V>,
    tables: Map<u64, Seq<([u8; K], Option<[u8; V]>)>>,
)
    requires
        worker.directory.dom().finite(),
        decidable(worker.directory, worker.db_sz, worker.config),
        worker.step is Polling,
        follows(worker, tables),
    ensures
        follows(worker.maintained(), tables),
{
    lemma_due_run(worker.directory, worker.db_sz, worker.config);
    let next = worker.maintained();
    assert(tables_at(tables, next.run.take(0)) =~= Seq::<
        Seq<([u8; K], Option<[u8; V]>)>,
    >::empty());
}

/// The merged sstable is written.
proof fn lemma_run_written<const K: usize, const V: usize>(
    worker: WorkerState<K, V>,
    tables: Map<u64, Seq<([u8; K], Option<[u8; V]>)>>,
    merged: Seq<([u8; K], Option<[u8; V]>)>,
)
    requires
        worker.wf(),
        worker.step is Writing,
        worker.merged_size() <= u64::MAX,
        follows(worker, tables),
        ascending(merged),
        map_of(merged) == worker.merged,
    ensures
        stored(tables.insert(worker.run.last(), merged)) == stored(tables),
        follows(
            worker.after(WorkerEvent::Done),
            tables.insert(worker.run.last(), merged),
        ),
{
    let last = worker.run.last();
    let new = tables.insert(last, merged);
    let next = worker.after(WorkerEvent::Done);
    assert forall|id: u64|
        #[trigger] tables.dom().contains(id) && worker.run[0] <= id <= last implies worker.run.contains(
        id,
    ) by {
        assert(worker.directory.contains_key(last));
        assert(tables.contains_key(id));
        assert(worker.directory.dom().contains(id));
    }
    assert forall|i: int| 0 <= i < worker.run.len() implies tables.dom().contains(
        #[trigger] worker.run[i],
    ) by {
        assert(worker.directory.contains_key(worker.run[i]));
    }
    lemma_overlay_ascending(merged);
    lemma_map_of_len(merged);
    law_merged_sstable_stands_for_its_run(tables, worker.run, merged);
    assert forall|i: int, key: [u8; K]|
        0 <= i < worker.run.len() - 1 && #[trigger] holds(new[worker.run[i]], key) implies holds(
        new[last],
        key,
    ) by {
        assert(worker.run[i] < last);
        assert(holds(tables[worker.run[i]], key));
    }
}

/// A new sstable, with an id above all others, of which the worker has not been
/// told yet, leaves true what the worker knows.
pub proof fn law_new_sstable_does_not_disturb<const K: usize, const V: usize>(
    worker: WorkerState<K, V>,
    tables: Map<u64, Seq<([u8; K], Option<[u8; V]>)>>,
    id: u64,
    entries: Seq<([u8; K], Option<[u8; V]>)>,
)
    requires
        worker.wf(),
        follows(worker, tables),
        forall|other: u64| #[trigger] tables.contains_key(other) ==> other < id,
    ensures
        follows(worker, tables.insert(id, entries)),
{
    let new = tables.insert(id, entries);
    assert(!tables.contains_key(id));
    assert forall|i: int| 0 <= i < worker.run.len() && worker.directory.contains_key(
        #[trigger] worker.run[i],
    ) implies new[worker.run[i]] == tables[worker.run[i]] by {
        assert(tables.contains_key(worker.run[i]));
    }
    if worker.step is Reading {
        assert(tables_at(new, worker.run.take(worker.next)) =~= tables_at(
            tables,
            worker.run.take(worker.next),
        ));
    }
    if worker.step is Writing {
        assert(tables_at(new, worker.run) =~= tables_at(tables, worker.run));
    }
    if worker.step is Removing {
        assert forall|i: int, key: [u8; K]|
            worker.next <= i < worker.run.len() - 1 && #[trigger] holds(new[worker.run[i]], key)
            implies holds(new[worker.run.last()], key) by {
            assert(worker.directory.contains_key(worker.run[i]));
            assert(holds(tables[worker.run[i]], key));
        }
    }
}

/// What the files are worth to the database, they still are after a step of the
/// worker.
pub proof fn law_compaction_keeps_the_database_backed<const K: usize, const V: usize>(
    lsm: LsmState<K, V>,
    log: Seq<u8>,
    data: Map<[u8; K], [u8; V]>,
    worker: WorkerState<K, V>,
    tables: Map<u64, Seq<([u8; K], Option<[u8; V]>)>>,
    event: WorkerEvent<K, V>,
    merged: Seq<([u8; K], Option<[u8; V]>)>,
)
    requires
        kept(lsm, tables, log, data),
        worker.wf(),
        worker.accepts(event),
        follows(worker, tables),
        truthful(worker, tables, event),
        ascending(merged),
        map_of(merged) == worker.merged,
    ensures
        kept(lsm, tables_after(worker, tables, event, merged), log, data),
{
    law_compaction_keeps_the_data(worker, tables, event, merged);
    assert forall|id: u64| #[trigger]
        tables_after(worker, tables, event, merged).contains_key(id) implies id
        < lsm.next_sstable_id by {
        assert(worker.directory.contains_key(worker.run.last()) ==> tables.contains_key(
            worker.run.last(),
        ));
        assert(tables.contains_key(id));
    }
}

/// The worker of a database that was recovered knows the sstables.
pub proof fn law_recovered_worker_follows<const K: usize, const V: usize>(
    tables: Map<u64, Seq<([u8; K], Option<[u8; V]>)>>,
    log: Seq<u8>,
    config: Config,
)
    requires
        tables.dom().finite(),
        forall|id: u64| #[trigger]
            tables.contains_key(id) ==> sstable_len::<K, V>(tables[id].len()) <= u64::MAX,
    ensures
        follows(recovered_worker(tables, log, config), tables),
{
}

/// What the database tells the worker of a new sstable is the truth: its id and
/// the size of its contents.
pub proof fn law_notice_is_true<const K: usize, const V: usize>(
    lsm: LsmState<K, V>,
    entries: Seq<([u8; K], Option<[u8; V]>)>,
)
    requires
        lsm.phase is Writing,
        lsm.accepts(true),
        ascending(entries),
        map_of(entries) == lsm.memtable,
    ensures
        lsm.notice() matches WorkerMessage::NewSST { id, sst_sz, db_sz } && id == lsm.next_sstable_id
            && sst_sz == sstable_len::<K, V>(entries.len()) && db_sz == lsm.db.len() * (K + V),
{
    lemma_map_of_len(entries);
}

/// The state after some events.
pub open spec fn after_all<const K: usize, const V: usize>(
    worker: WorkerState<K, V>,
    events: Seq<WorkerEvent<K, V>>,
) -> WorkerState<K, V>
    decreases events.len(),
{
    if events.len() == 0 {
        worker
    } else {
        after_all(worker, events.drop_last()).after(events.last())
    }
}

/// All that the worker asks for in a compaction is done, one after the other.
pub open spec fn goes_well<const K: usize, const V: usize>(
    worker: WorkerState<K, V>,
    events: Seq<WorkerEvent<K, V>>,
) -> bool
    decreases events.len(),
{
    events.len() > 0 ==> {
        &&& goes_well(worker, events.drop_last())
        &&& events.last() is TableRead || events.last() is Done
        &&& after_all(worker, events.drop_last()).accepts(events.last())
    }
}

/// How many things have been done in a compaction that has come this far.
pub open spec fn done_so_far<const K: usize, const V: usize>(worker: WorkerState<K, V>) -> int {
    match worker.step {
        Step::Reading => worker.next,
        Step::Writing => worker.run.len() as int,
        Step::Removing => worker.run.len() + 1 + worker.next,
        Step::Syncing => 2 * worker.run.len() as int,
        _ => 2 * worker.run.len() as int + 1,
    }
}

/// How many sstables have been removed in a compaction that has come this far.
pub open spec fn removed_so_far<const K: usize, const V: usize>(worker: WorkerState<K, V>) -> int {
    match worker.step {
        Step::Reading => 0,
        Step::Writing => 0,
        Step::Removing => worker.next,
        _ => worker.run.len() - 1,
    }
}

/// What a compaction has come to after some events.
proof fn lemma_compaction_so_far<const K: usize, const V: usize>(
    start: WorkerState<K, V>,
    events: Seq<WorkerEvent<K, V>>,
)
    requires
        start.wf(),
        start.step is Reading,
        start.next == 0,
        goes_well(start, events),
    ensures
        ({
            let now = after_all(start, events);
            &&& now.wf()
            &&& now.run == start.run
            &&& !(now.step is Waiting) && !(now.step is Stopped)
            &&& done_so_far(now) == events.len()
            &&& now.directory.dom().len() == start.directory.dom().len() - removed_so_far(now)
            &&& forall|id: u64| #[trigger]
                now.directory.contains_key(id) <==> start.directory.contains_key(id)
                    && !start.run.take(removed_so_far(now)).contains(id)
        }),
    decreases events.len(),
{
    let now = after_all(start, events);
    if events.len() == 0 {
        assert(start.run.take(0) =~= Seq::<u64>::empty());
    } else {
        let before = after_all(start, events.drop_last());
        lemma_compaction_so_far(start, events.drop_last());
        lemma_worker_stays_valid(before, events.last());
        if before.step is Writing {
            assert(before.directory.dom().insert(before.run.last()) =~= before.directory.dom());
            assert(now.directory.dom() =~= before.directory.dom());
            assert(start.run.take(0) =~= Seq::<u64>::empty());
        } else if before.step is Removing {
            let id = before.run[before.next];
            let gone = start.run.take(before.next);
            let more = start.run.take(before.next + 1);
            assert(now.directory.dom() =~= before.directory.dom().remove(id));
            assert(more =~= gone.push(id));
            assert forall|other: u64| more.contains(other) <==> gone.contains(other) || other
                == id by {
                assert(more.last() == id);
                if gone.contains(other) {
                    let i = choose|i: int| 0 <= i < gone.len() && gone[i] == other;
                    assert(more[i] == other);
                }
            }
        }
    }
}

/// A compaction that goes well takes twice as many things to do as it merges
/// sstables, and one more. At its end only the last of these sstables is left,
/// so the highest id of all is never lost.
pub proof fn law_compaction_comes_to_an_end<const K: usize, const V: usize>(
    start: WorkerState<K, V>,
    events: Seq<WorkerEvent<K, V>>,
)
    requires
        start.wf(),
        start.step is Reading,
        start.next == 0,
        goes_well(start, events),
    ensures
        events.len() <= 2 * start.run.len() + 1,
        after_all(start, events).step is Polling <==> events.len() == 2 * start.run.len() + 1,
        after_all(start, events).step is Polling ==> {
            let end = after_all(start, events);
            &&& end.directory.dom().len() == start.directory.dom().len() - (start.run.len() - 1)
            &&& forall|id: u64| #[trigger]
                end.directory.contains_key(id) <==> start.directory.contains_key(id)
                    && !start.run.drop_last().contains(id)
            &&& forall|highest: u64|
                #![trigger end.directory.contains_key(highest)]
                start.directory.contains_key(highest) && (forall|id: u64| #[trigger]
                    start.directory.contains_key(id) ==> id <= highest)
                    ==> end.directory.contains_key(highest)
        },
{
    lemma_compaction_so_far(start, events);
    let end = after_all(start, events);
    if end.step is Polling {
        assert(start.run.take(start.run.len() - 1) =~= start.run.drop_last());
        assert forall|highest: u64|
            #![trigger end.directory.contains_key(highest)]
            start.directory.contains_key(highest) && (forall|id: u64| #[trigger]
                start.directory.contains_key(id) ==> id <= highest) implies end.directory.contains_key(
            highest,
        ) by {
            assert(start.directory.contains_key(start.run.last()));
            assert(!start.run.drop_last().contains(highest));
        }
    }
}

/// With windows of at least two sstables, each compaction that goes well leaves
/// fewer of them, so maintenance comes to an end.
pub proof fn law_maintenance_comes_to_an_end<const K: usize, const V: usize>(
    worker: WorkerState<K, V>,
    events: Seq<WorkerEvent<K, V>>,
)
    requires
        worker.wf(),
        worker.step is Polling,
        worker.config.merge_window >= 2,
        worker.maintained().step is Reading,
        goes_well(worker.maintained(), events),
        after_all(worker.maintained(), events).step is Polling,
    ensures
        after_all(worker.maintained(), events).directory.dom().len()
            < worker.directory.dom().len(),
{
    lemma_worker_stays_valid(worker, WorkerEvent::Empty);
    lemma_due_run_length(worker.directory, worker.db_sz, worker.config);
    law_compaction_comes_to_an_end(worker.maintained(), events);
}

/// Each event can come when it comes.
pub open spec fn accepts_all<const K: usize, const V: usize>(
    worker: WorkerState<K, V>,
    events: Seq<WorkerEvent<K, V>>,
) -> bool
    decreases events.len(),
{
    events.len() > 0 ==> {
        &&& accepts_all(worker, events.drop_last())
        &&& after_all(worker, events.drop_last()).accepts(events.last())
    }
}

/// The event is a notice of a new sstable.
pub open spec fn is_notice<const K: usize, const V: usize>(event: WorkerEvent<K, V>) -> bool {
    event matches WorkerEvent::Message(message) && message is NewSST
}

/// After any history, the database counts with the size that the last notice
/// told; and if there was none, with the size at the start.
pub proof fn law_the_last_notice_tells_the_size<const K: usize, const V: usize>(
    worker: WorkerState<K, V>,
    events: Seq<WorkerEvent<K, V>>,
)
    requires
        worker.wf(),
        accepts_all(worker, events),
    ensures
        (forall|i: int| 0 <= i < events.len() ==> !is_notice(#[trigger] events[i])) ==> after_all(
            worker,
            events,
        ).db_sz == worker.db_sz,
        forall|i: int|
            0 <= i < events.len() && is_notice(#[trigger] events[i]) && (forall|j: int|
                i < j < events.len() ==> !is_notice(#[trigger] events[j])) ==> (
            events[i] matches WorkerEvent::Message(WorkerMessage::NewSST { id, sst_sz, db_sz })
                && after_all(worker, events).db_sz == db_sz),
        after_all(worker, events).wf(),
        after_all(worker, events).config == worker.config,
    decreases events.len(),
{
    if events.len() > 0 {
        let front = events.drop_last();
        let before = after_all(worker, front);
        let last = events.last();
        law_the_last_notice_tells_the_size(worker, front);
        lemma_worker_stays_valid(before, last);
        if is_notice(last) {
            if let WorkerEvent::Message(WorkerMessage::NewSST { id, sst_sz, db_sz }) = last {
                law_notice_is_taken_in(before, id, sst_sz, db_sz);
            }
        } else {
            law_only_notices_tell_sizes(before, last);
        }
        if forall|i: int| 0 <= i < events.len() ==> !is_notice(#[trigger] events[i]) {
            assert(!is_notice(events[events.len() - 1]));
            assert forall|i: int| 0 <= i < front.len() implies !is_notice(#[trigger] front[i]) by {
                assert(front[i] == events[i]);
            }
        }
        assert forall|i: int|
            0 <= i < events.len() && is_notice(#[trigger] events[i]) && (forall|j: int|
                i < j < events.len() ==> !is_notice(#[trigger] events[j])) implies (
        events[i] matches WorkerEvent::Message(WorkerMessage::NewSST { id, sst_sz, db_sz })
            && after_all(worker, events).db_sz == db_sz) by {
            if i < front.len() {
                assert(!is_notice(events[events.len() - 1]));
                assert(front[i] == events[i]);
                assert forall|j: int| i < j < front.len() implies !is_notice(
                    #[trigger] front[j],
                ) by {
                    assert(front[j] == events[j]);
                }
            }
        }
    }
}

/// What is asked for in a compaction of `n` sstables that goes well: first each
/// of them is read, from the oldest to the newest; then the newest is written,
/// and the others are removed, from the oldest on; then the directory is made
/// durable, and the worker polls again.
pub proof fn law_what_a_compaction_asks_for<const K: usize, const V: usize>(
    start: WorkerState<K, V>,
    events: Seq<WorkerEvent<K, V>>,
)
    requires
        start.wf(),
        start.step is Reading,
        start.next == 0,
        goes_well(start, events),
    ensures
        ({
            let n = start.run.len() as int;
            let done = events.len() as int;
            let action = after_all(start, events).action();
            &&& done < n ==> action == WorkerAction::ReadTable(start.run[done])
            &&& done == n ==> action == WorkerAction::WriteTable(start.run[n - 1])
            &&& n < done < 2 * n ==> action == WorkerAction::RemoveTable(start.run[done - n - 1])
            &&& done == 2 * n ==> action == WorkerAction::SyncDirectory
            &&& done > 2 * n ==> action == WorkerAction::Poll
        }),
{
    lemma_compaction_so_far(start, events);
}

/// When the merged sstable has been written, it counts with the size of its
/// contents, and all other sstables with their sizes as before.
pub proof fn law_size_of_the_merged_sstable<const K: usize, const V: usize>(
    worker: WorkerState<K, V>,
    id: u64,
)
    requires
        worker.wf(),
        worker.action() == WorkerAction::WriteTable(id),
        8 + worker.merged.len() * (5 + K + V) <= u64::MAX,
    ensures
        worker.after(WorkerEvent::Done).directory == worker.directory.insert(
            id,
            (8 + worker.merged.len() * (5 + K + V)) as u64,
        ),
{
}

/// The entries of a later sstable stand over those of the earlier ones that were
/// read: for each key, the last entry that was read is merged.
pub proof fn law_the_last_entry_read_is_merged<const K: usize, const V: usize>(
    worker: WorkerState<K, V>,
    entries: Vec<([u8; K], Option<[u8; V]>)>,
    key: [u8; K],
    i: int,
)
    requires
        worker.accepts(WorkerEvent::TableRead(entries)),
    ensures
        ({
            let merged = worker.after(WorkerEvent::TableRead(entries)).merged;
            &&& is_last_of_its_key(entries@, i) ==> merged.get(entries@[i].0) == Some(entries@[i].1)
            &&& silent_on(entries@, key) ==> merged.get(key) == worker.merged.get(key)
        }),
{
    if is_last_of_its_key(entries@, i) {
        law_last_entry_decides::<K, V>(Map::empty(), worker.merged, entries@, i);
    }
    if silent_on(entries@, key) {
        law_untouched_key_stays::<K, V>(Map::empty(), worker.merged, entries@, key);
    }
}

/// When an sstable has been removed, it no longer counts, and all others count
/// with their sizes as before. No other step of a compaction but this and the
/// writing of the merged sstable changes the sizes, and none the options or the
/// size of the database.
pub proof fn law_removed_sstable_no_longer_counts<const K: usize, const V: usize>(
    worker: WorkerState<K, V>,
    event: WorkerEvent<K, V>,
)
    requires
        worker.wf(),
        worker.accepts(event),
        !(worker.action() is Poll),
        !(worker.action() is Wait),
        !(worker.action() is WriteTable),
    ensures
        worker.after(event).db_sz == worker.db_sz,
        worker.after(event).config == worker.config,
        worker.after(event).run == worker.run,
        worker.after(event).directory == match (worker.action(), event) {
            (WorkerAction::RemoveTable(id), WorkerEvent::Done) => worker.directory.remove(id),
            _ => worker.directory,
        },
{
}

} // verus!
