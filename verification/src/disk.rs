//! What the files on disk amount to.
//!
//! The sstables are taken as the entries that each of them holds, by id. They
//! are read in ascending order of their ids; the log comes last.
use crate::directory::{
    increasing, lemma_highest, lemma_increasing_unique, lemma_sorted_ids, sorted_ids,
};
use crate::model::{
    apply_latest, holds, law_last_entry_decides, law_untouched_key_stays, lemma_apply_nothing,
    lemma_last_holder_decides, lemma_no_holder, lemma_replay_tables_is_latest, overlay,
    overlay_tables, replay, replay_tables,
};
use crate::record::records_of;
use crate::sstable::sstable_len;
use vstd::prelude::*;

verus! {

/// The entries of the sstables, in ascending order of their ids.
pub open spec fn in_order<const K: usize, const V: usize>(
    tables: Map<u64, Seq<([u8; K], Option<[u8; V]>)>>,
) -> Seq<Seq<([u8; K], Option<[u8; V]>)>> {
    sorted_ids(tables.dom()).map_values(|id: u64| tables[id])
}

/// The data that the sstables amount to.
pub open spec fn stored<const K: usize, const V: usize>(
    tables: Map<u64, Seq<([u8; K], Option<[u8; V]>)>>,
) -> Map<[u8; K], [u8; V]> {
    replay_tables(Map::empty(), in_order(tables))
}

/// The data that the sstables and the log amount to.
pub open spec fn contents<const K: usize, const V: usize>(
    tables: Map<u64, Seq<([u8; K], Option<[u8; V]>)>>,
    log: Seq<u8>,
) -> Map<[u8; K], [u8; V]> {
    replay(stored(tables), records_of::<K, V>(log))
}

/// The size of each sstable.
pub open spec fn sizes<const K: usize, const V: usize>(
    tables: Map<u64, Seq<([u8; K], Option<[u8; V]>)>>,
) -> Map<u64, u64> {
    tables.map_values(
        |table: Seq<([u8; K], Option<[u8; V]>)>| sstable_len::<K, V>(table.len()) as u64,
    )
}

/// The sstables by id.
pub open spec fn by_id<const K: usize, const V: usize>(
    tables: Seq<(u64, Seq<([u8; K], Option<[u8; V]>)>)>,
) -> Map<u64, Seq<([u8; K], Option<[u8; V]>)>>
    decreases tables.len(),
{
    if tables.len() == 0 {
        Map::empty()
    } else {
        by_id(tables.drop_last()).insert(tables.last().0, tables.last().1)
    }
}

/// The ids of sstables.
pub open spec fn ids_of<T>(tables: Seq<(u64, T)>) -> Seq<u64> {
    tables.map_values(|table: (u64, T)| table.0)
}

/// Sstables that come in ascending order of their ids are in that order by id
/// too.
pub proof fn lemma_by_id<const K: usize, const V: usize>(
    tables: Seq<(u64, Seq<([u8; K], Option<[u8; V]>)>)>,
)
    requires
        increasing(ids_of(tables)),
    ensures
        by_id(tables).dom().finite(),
        sorted_ids(by_id(tables).dom()) == ids_of(tables),
        forall|i: int| 0 <= i < tables.len() ==> by_id(tables)[(#[trigger] tables[i]).0] == tables[i].1,
        in_order(by_id(tables)) == tables.map_values(
            |table: (u64, Seq<([u8; K], Option<[u8; V]>)>)| table.1,
        ),
    decreases tables.len(),
{
    let ids = ids_of(tables);
    if tables.len() > 0 {
        let front = tables.drop_last();
        assert(ids_of(front) =~= ids.drop_last());
        lemma_by_id(front);
        assert forall|i: int| 0 <= i < tables.len() implies by_id(tables)[(#[trigger] tables[i]).0]
            == tables[i].1 by {
            if i < front.len() {
                assert(front[i] == tables[i]);
                assert(ids[i] < ids[tables.len() - 1]);
            }
        }
        assert forall|id: u64| by_id(tables).contains_key(id) <==> ids.to_set().contains(id) by {
            lemma_sorted_ids(by_id(front).dom());
            if ids.contains(id) {
                let i = choose|i: int| 0 <= i < ids.len() && ids[i] == id;
                if i < front.len() {
                    assert(ids_of(front)[i] == id);
                    assert(ids_of(front).to_set().contains(id));
                }
            }
            if by_id(front).contains_key(id) {
                assert(ids_of(front).to_set().contains(id));
                let i = choose|i: int| 0 <= i < front.len() && ids_of(front)[i] == id;
                assert(ids[i] == id);
            }
            assert(ids[tables.len() - 1] == tables.last().0);
        }
    }
    assert(by_id(tables).dom() =~= ids.to_set());
    lemma_sorted_ids(by_id(tables).dom());
    lemma_increasing_unique(ids, sorted_ids(by_id(tables).dom()));
    assert(in_order(by_id(tables)) =~= tables.map_values(
        |table: (u64, Seq<([u8; K], Option<[u8; V]>)>)| table.1,
    ));
}

/// The last entry of each key in the sstables.
pub open spec fn latest<const K: usize, const V: usize>(
    tables: Map<u64, Seq<([u8; K], Option<[u8; V]>)>>,
) -> Map<[u8; K], Option<[u8; V]>> {
    overlay_tables(Map::empty(), in_order(tables))
}

/// The last entry of each key decides what the sstables amount to.
proof fn lemma_stored_is_latest<const K: usize, const V: usize>(
    tables: Map<u64, Seq<([u8; K], Option<[u8; V]>)>>,
)
    ensures
        stored(tables) == apply_latest(Map::empty(), latest(tables)),
{
    lemma_apply_nothing::<K, V>(Map::empty());
    lemma_replay_tables_is_latest::<K, V>(Map::empty(), Map::empty(), in_order(tables));
}

/// The sstable with the highest id that holds a key decides on it.
proof fn lemma_latest_at<const K: usize, const V: usize>(
    tables: Map<u64, Seq<([u8; K], Option<[u8; V]>)>>,
    key: [u8; K],
    id: u64,
)
    requires
        tables.dom().finite(),
        tables.contains_key(id),
        holds(tables[id], key),
        forall|later: u64|
            tables.contains_key(later) && id < later ==> !holds(#[trigger] tables[later], key),
    ensures
        latest(tables).contains_key(key),
        latest(tables)[key] == overlay(Map::empty(), tables[id])[key],
{
    let ids = sorted_ids(tables.dom());
    lemma_sorted_ids(tables.dom());
    assert(ids.to_set().contains(id));
    let i = choose|i: int| 0 <= i < ids.len() && ids[i] == id;
    assert forall|j: int| i < j < ids.len() implies !holds(#[trigger] in_order(tables)[j], key) by {
        assert(ids.to_set().contains(ids[j]));
        assert(in_order(tables)[j] == tables[ids[j]]);
    }
    lemma_last_holder_decides(in_order(tables), key, i);
}

/// A key that no sstable holds is in none.
proof fn lemma_latest_without<const K: usize, const V: usize>(
    tables: Map<u64, Seq<([u8; K], Option<[u8; V]>)>>,
    key: [u8; K],
)
    requires
        tables.dom().finite(),
        forall|id: u64| tables.contains_key(id) ==> !holds(#[trigger] tables[id], key),
    ensures
        !latest(tables).contains_key(key),
{
    let ids = sorted_ids(tables.dom());
    lemma_sorted_ids(tables.dom());
    assert forall|j: int| 0 <= j < ids.len() implies !holds(#[trigger] in_order(tables)[j], key) by {
        assert(ids.to_set().contains(ids[j]));
        assert(in_order(tables)[j] == tables[ids[j]]);
    }
    lemma_no_holder(in_order(tables), key);
}

/// The highest id of an sstable that holds a key, if any does.
proof fn lemma_highest_holder<const K: usize, const V: usize>(
    tables: Map<u64, Seq<([u8; K], Option<[u8; V]>)>>,
    key: [u8; K],
) -> (r: Option<u64>)
    requires
        tables.dom().finite(),
    ensures
        match r {
            Some(id) => {
                &&& tables.contains_key(id)
                &&& holds(tables[id], key)
                &&& forall|later: u64|
                    tables.contains_key(later) && id < later ==> !holds(
                        #[trigger] tables[later],
                        key,
                    )
            },
            None => forall|id: u64| tables.contains_key(id) ==> !holds(#[trigger] tables[id], key),
        },
{
    let holders = tables.dom().filter(|id: u64| holds(tables[id], key));
    tables.dom().lemma_len_filter(|id: u64| holds(tables[id], key));
    if holders.len() == 0 {
        assert forall|id: u64| tables.contains_key(id) implies !holds(#[trigger] tables[id], key) by {
            if holds(tables[id], key) {
                assert(holders.contains(id));
            }
        }
        None
    } else {
        let id = lemma_highest(holders);
        assert forall|later: u64| tables.contains_key(later) && id < later implies !holds(
            #[trigger] tables[later],
            key,
        ) by {
            if holds(tables[later], key) {
                assert(holders.contains(later));
            }
        }
        Some(id)
    }
}

/// An sstable all of whose keys are in a later one can be removed: the data
/// stays the same.
pub proof fn law_covered_sstable_can_go<const K: usize, const V: usize>(
    tables: Map<u64, Seq<([u8; K], Option<[u8; V]>)>>,
    id: u64,
    later: u64,
)
    requires
        tables.dom().finite(),
        tables.contains_key(id),
        tables.contains_key(later),
        id < later,
        forall|key: [u8; K]| #[trigger] holds(tables[id], key) ==> holds(tables[later], key),
    ensures
        stored(tables.remove(id)) == stored(tables),
{
    let rest = tables.remove(id);
    assert forall|key: [u8; K]|
        #![trigger latest(rest).dom().contains(key)]
        #![trigger latest(tables).dom().contains(key)]
        latest(rest).dom().contains(key) == latest(tables).dom().contains(key) && (latest(
            tables,
        ).dom().contains(key) ==> latest(rest)[key] == latest(tables)[key]) by {
        match lemma_highest_holder(tables, key) {
            Some(holder) => {
                assert(holder != id);
                assert(rest[holder] == tables[holder]);
                assert forall|other: u64| rest.contains_key(other) && holder < other implies !holds(
                    #[trigger] rest[other],
                    key,
                ) by {
                    assert(rest[other] == tables[other]);
                }
                lemma_latest_at(tables, key, holder);
                lemma_latest_at(rest, key, holder);
            },
            None => {
                assert forall|other: u64| rest.contains_key(other) implies !holds(
                    #[trigger] rest[other],
                    key,
                ) by {
                    assert(rest[other] == tables[other]);
                }
                lemma_latest_without(tables, key);
                lemma_latest_without(rest, key);
            },
        }
    }
    assert(latest(rest) =~= latest(tables));
    lemma_stored_is_latest(tables);
    lemma_stored_is_latest(rest);
}

/// The ids are those of sstables, in ascending order and without a gap.
pub open spec fn is_run(ids: Set<u64>, run: Seq<u64>) -> bool {
    &&& run.len() > 0
    &&& increasing(run)
    &&& forall|i: int| 0 <= i < run.len() ==> ids.contains(#[trigger] run[i])
    &&& forall|id: u64|
        #[trigger] ids.contains(id) && run[0] <= id <= run.last() ==> run.contains(id)
}

/// The entries of some of the sstables.
pub open spec fn tables_at<const K: usize, const V: usize>(
    tables: Map<u64, Seq<([u8; K], Option<[u8; V]>)>>,
    run: Seq<u64>,
) -> Seq<Seq<([u8; K], Option<[u8; V]>)>> {
    run.map_values(|id: u64| tables[id])
}

/// Sstables without a gap between them can be merged into the last: the data
/// stays the same, and the merged sstable has all their keys.
pub proof fn law_merged_sstable_stands_for_its_run<const K: usize, const V: usize>(
    tables: Map<u64, Seq<([u8; K], Option<[u8; V]>)>>,
    run: Seq<u64>,
    merged: Seq<([u8; K], Option<[u8; V]>)>,
)
    requires
        tables.dom().finite(),
        is_run(tables.dom(), run),
        overlay(Map::empty(), merged) == overlay_tables(Map::empty(), tables_at(tables, run)),
    ensures
        stored(tables.insert(run.last(), merged)) == stored(tables),
        forall|i: int, key: [u8; K]|
            0 <= i < run.len() && #[trigger] holds(tables[run[i]], key) ==> holds(merged, key),
{
    let last = run.last();
    let new = tables.insert(last, merged);
    let parts = tables_at(tables, run);
    assert forall|key: [u8; K]|
        #![trigger latest(new).dom().contains(key)]
        #![trigger latest(tables).dom().contains(key)]
        latest(new).dom().contains(key) == latest(tables).dom().contains(key) && (latest(
            tables,
        ).dom().contains(key) ==> latest(new)[key] == latest(tables)[key]) by {
        lemma_merged_key(tables, run, merged, key);
    }
    assert forall|i: int, key: [u8; K]|
        0 <= i < run.len() && #[trigger] holds(tables[run[i]], key) implies holds(merged, key) by {
        lemma_merged_has(tables, run, key, i);
    }
    assert(latest(new) =~= latest(tables));
    lemma_stored_is_latest(tables);
    lemma_stored_is_latest(new);
}

/// What an sstable of a run holds is in the run as a whole.
proof fn lemma_merged_has<const K: usize, const V: usize>(
    tables: Map<u64, Seq<([u8; K], Option<[u8; V]>)>>,
    run: Seq<u64>,
    key: [u8; K],
    i: int,
)
    requires
        0 <= i < run.len(),
        holds(tables[run[i]], key),
    ensures
        overlay_tables(Map::empty(), tables_at(tables, run)).contains_key(key),
    decreases run.len() - i,
{
    let parts = tables_at(tables, run);
    if exists|j: int| i < j < run.len() && holds(#[trigger] tables[run[j]], key) {
        let j = choose|j: int| i < j < run.len() && holds(#[trigger] tables[run[j]], key);
        lemma_merged_has(tables, run, key, j);
    } else {
        assert forall|j: int| i < j < parts.len() implies !holds(#[trigger] parts[j], key) by {
            assert(parts[j] == tables[run[j]]);
        }
        lemma_last_holder_decides(parts, key, i);
    }
}

/// Merging a run changes nothing for a key.
proof fn lemma_merged_key<const K: usize, const V: usize>(
    tables: Map<u64, Seq<([u8; K], Option<[u8; V]>)>>,
    run: Seq<u64>,
    merged: Seq<([u8; K], Option<[u8; V]>)>,
    key: [u8; K],
)
    requires
        tables.dom().finite(),
        is_run(tables.dom(), run),
        overlay(Map::empty(), merged) == overlay_tables(Map::empty(), tables_at(tables, run)),
    ensures
        latest(tables.insert(run.last(), merged)).contains_key(key) == latest(tables).contains_key(key),
        latest(tables).contains_key(key) ==> latest(tables.insert(run.last(), merged))[key] == latest(
            tables,
        )[key],
{
    let last = run.last();
    let new = tables.insert(last, merged);
    let parts = tables_at(tables, run);
    match lemma_highest_holder(tables, key) {
        Some(holder) => {
            lemma_latest_at(tables, key, holder);
            assert forall|other: u64| new.contains_key(other) && holder < other && other != last
                implies !holds(#[trigger] new[other], key) by {
                assert(new[other] == tables[other]);
            }
            if run[0] <= holder <= last {
                assert(tables.dom().contains(holder));
                let i = choose|i: int| 0 <= i < run.len() && run[i] == holder;
                assert forall|j: int| i < j < parts.len() implies !holds(#[trigger] parts[j], key) by {
                    assert(tables.dom().contains(run[j]));
                    assert(parts[j] == tables[run[j]]);
                }
                lemma_last_holder_decides(parts, key, i);
                assert(holds(new[last], key));
                lemma_latest_at(new, key, last);
            } else {
                if holder < run[0] {
                    assert forall|j: int| 0 <= j < parts.len() implies !holds(
                        #[trigger] parts[j],
                        key,
                    ) by {
                        assert(tables.dom().contains(run[j]));
                        assert(run[0] <= run[j]);
                        assert(parts[j] == tables[run[j]]);
                    }
                    lemma_no_holder(parts, key);
                }
                assert(new[holder] == tables[holder]);
                lemma_latest_at(new, key, holder);
            }
        },
        None => {
            lemma_latest_without(tables, key);
            assert forall|j: int| 0 <= j < parts.len() implies !holds(#[trigger] parts[j], key) by {
                assert(tables.dom().contains(run[j]));
                assert(parts[j] == tables[run[j]]);
            }
            lemma_no_holder(parts, key);
            assert forall|other: u64| new.contains_key(other) implies !holds(
                #[trigger] new[other],
                key,
            ) by {
                if other != last {
                    assert(new[other] == tables[other]);
                }
            }
            lemma_latest_without(new, key);
        },
    }
}

/// An sstable with an id above all others is read last.
pub proof fn law_new_sstable_is_read_last<const K: usize, const V: usize>(
    tables: Map<u64, Seq<([u8; K], Option<[u8; V]>)>>,
    id: u64,
    entries: Seq<([u8; K], Option<[u8; V]>)>,
)
    requires
        tables.dom().finite(),
        forall|other: u64| #[trigger] tables.contains_key(other) ==> other < id,
    ensures
        stored(tables.insert(id, entries)) == replay(stored(tables), entries),
{
    let new = tables.insert(id, entries);
    let ids = sorted_ids(tables.dom());
    lemma_sorted_ids(tables.dom());
    lemma_sorted_ids(new.dom());
    let all = ids.push(id);
    assert forall|i: int, j: int| 0 <= i < j < all.len() implies all[i] < all[j] by {
        assert(ids.to_set().contains(all[i]));
        assert(tables.contains_key(all[i]));
    }
    assert forall|other: u64| all.to_set().contains(other) <==> new.dom().contains(other) by {
        if new.contains_key(other) && other != id {
            assert(ids.to_set().contains(other));
            let i = choose|i: int| 0 <= i < ids.len() && ids[i] == other;
            assert(all[i] == other);
        }
        if other == id {
            assert(all.last() == other);
        }
        if all.contains(other) && other != id {
            let i = choose|i: int| 0 <= i < all.len() && all[i] == other;
            assert(ids.to_set().contains(ids[i]));
        }
    }
    assert(all.to_set() =~= new.dom());
    lemma_increasing_unique(all, sorted_ids(new.dom()));
    assert(in_order(new) =~= in_order(tables).push(entries)) by {
        assert forall|i: int| 0 <= i < ids.len() implies in_order(new)[i] == in_order(tables)[i] by {
            assert(ids.to_set().contains(ids[i]));
            assert(tables.contains_key(ids[i]));
        }
    }
    assert(in_order(new).drop_last() =~= in_order(tables));
}

/// The entries say nothing of the key.
pub open spec fn silent_on<const K: usize, const V: usize>(
    entries: Seq<([u8; K], Option<[u8; V]>)>,
    key: [u8; K],
) -> bool {
    forall|j: int| 0 <= j < entries.len() ==> (#[trigger] entries[j]).0 != key
}

/// Entry `i` is the last of its key.
pub open spec fn is_last_of_its_key<const K: usize, const V: usize>(
    entries: Seq<([u8; K], Option<[u8; V]>)>,
    i: int,
) -> bool {
    &&& 0 <= i < entries.len()
    &&& forall|j: int| i < j < entries.len() ==> (#[trigger] entries[j]).0 != entries[i].0
}

/// If the log says something of a key, then its last record of the key is what
/// recovery goes by.
pub proof fn law_the_log_comes_last<const K: usize, const V: usize>(
    tables: Map<u64, Seq<([u8; K], Option<[u8; V]>)>>,
    log: Seq<u8>,
    i: int,
)
    requires
        is_last_of_its_key(records_of::<K, V>(log), i),
    ensures
        contents(tables, log).get(records_of::<K, V>(log)[i].0) == records_of::<K, V>(log)[i].1,
{
    law_last_entry_decides(stored(tables), Map::empty(), records_of::<K, V>(log), i);
}

/// If the log says nothing of a key, then the last entry of it in the sstable
/// with the highest id that has one is what recovery goes by.
pub proof fn law_newer_sstables_count_over_older_ones<const K: usize, const V: usize>(
    tables: Map<u64, Seq<([u8; K], Option<[u8; V]>)>>,
    log: Seq<u8>,
    id: u64,
    i: int,
)
    requires
        tables.dom().finite(),
        tables.contains_key(id),
        is_last_of_its_key(tables[id], i),
        silent_on(records_of::<K, V>(log), tables[id][i].0),
        forall|later: u64| #[trigger]
            tables.contains_key(later) && id < later ==> silent_on(tables[later], tables[id][i].0),
    ensures
        contents(tables, log).get(tables[id][i].0) == tables[id][i].1,
{
    let key = tables[id][i].0;
    law_last_entry_decides::<K, V>(Map::empty(), Map::empty(), tables[id], i);
    assert forall|later: u64| tables.contains_key(later) && id < later implies !holds(
        #[trigger] tables[later],
        key,
    ) by {
        assert(tables.contains_key(later));
        law_untouched_key_stays::<K, V>(Map::empty(), Map::empty(), tables[later], key);
    }
    lemma_latest_at(tables, key, id);
    lemma_stored_is_latest(tables);
    law_untouched_key_stays(stored(tables), Map::empty(), records_of::<K, V>(log), key);
}

/// A key of which neither the log nor an sstable says anything is not there.
pub proof fn law_nothing_comes_from_nowhere<const K: usize, const V: usize>(
    tables: Map<u64, Seq<([u8; K], Option<[u8; V]>)>>,
    log: Seq<u8>,
    key: [u8; K],
)
    requires
        tables.dom().finite(),
        silent_on(records_of::<K, V>(log), key),
        forall|id: u64| #[trigger] tables.contains_key(id) ==> silent_on(tables[id], key),
    ensures
        !contents(tables, log).contains_key(key),
{
    assert forall|id: u64| tables.contains_key(id) implies !holds(#[trigger] tables[id], key) by {
        assert(tables.contains_key(id));
        law_untouched_key_stays::<K, V>(Map::empty(), Map::empty(), tables[id], key);
    }
    lemma_latest_without(tables, key);
    lemma_stored_is_latest(tables);
    law_untouched_key_stays(stored(tables), Map::empty(), records_of::<K, V>(log), key);
}

/// The size of an sstable is that of the number of its records and of these.
pub proof fn law_sizes<const K: usize, const V: usize>(
    tables: Map<u64, Seq<([u8; K], Option<[u8; V]>)>>,
    id: u64,
)
    requires
        tables.contains_key(id),
        8 + tables[id].len() * (5 + K + V) <= u64::MAX,
    ensures
        sizes(tables).dom() == tables.dom(),
        sizes(tables)[id] == 8 + tables[id].len() * (5 + K + V),
{
    assert(sizes(tables).dom() =~= tables.dom());
}

} // verus!
