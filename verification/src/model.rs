//! What a sequence of writes amounts to.
//!
//! An entry is a key with its new value, or with `None` for a removal. The log
//! and the sstables are sequences of entries; the database is what is left
//! when they are applied in order.
use crate::ordered_map::{ascending, has_key, lemma_value_at, map_of, value_at, OrderedMap};
use vstd::prelude::*;

verus! {

/// The database after one entry.
pub open spec fn apply<const K: usize, const V: usize>(
    db: Map<[u8; K], [u8; V]>,
    entry: ([u8; K], Option<[u8; V]>),
) -> Map<[u8; K], [u8; V]> {
    match entry.1 {
        Some(value) => db.insert(entry.0, value),
        None => db.remove(entry.0),
    }
}

/// The database after a sequence of entries.
pub open spec fn replay<const K: usize, const V: usize>(
    db: Map<[u8; K], [u8; V]>,
    entries: Seq<([u8; K], Option<[u8; V]>)>,
) -> Map<[u8; K], [u8; V]>
    decreases entries.len(),
{
    if entries.len() == 0 {
        db
    } else {
        apply(replay(db, entries.drop_last()), entries.last())
    }
}

/// The database after the entries of a sequence of sstables, oldest first.
pub open spec fn replay_tables<const K: usize, const V: usize>(
    db: Map<[u8; K], [u8; V]>,
    tables: Seq<Seq<([u8; K], Option<[u8; V]>)>>,
) -> Map<[u8; K], [u8; V]>
    decreases tables.len(),
{
    if tables.len() == 0 {
        db
    } else {
        replay(replay_tables(db, tables.drop_last()), tables.last())
    }
}

/// The last entry of each key, removals included, over what was in `latest`.
pub open spec fn overlay<const K: usize, const V: usize>(
    latest: Map<[u8; K], Option<[u8; V]>>,
    entries: Seq<([u8; K], Option<[u8; V]>)>,
) -> Map<[u8; K], Option<[u8; V]>>
    decreases entries.len(),
{
    if entries.len() == 0 {
        latest
    } else {
        overlay(latest, entries.drop_last()).insert(entries.last().0, entries.last().1)
    }
}

/// The last entry of each key over a sequence of sstables, oldest first.
pub open spec fn overlay_tables<const K: usize, const V: usize>(
    latest: Map<[u8; K], Option<[u8; V]>>,
    tables: Seq<Seq<([u8; K], Option<[u8; V]>)>>,
) -> Map<[u8; K], Option<[u8; V]>>
    decreases tables.len(),
{
    if tables.len() == 0 {
        latest
    } else {
        overlay(overlay_tables(latest, tables.drop_last()), tables.last())
    }
}

/// The entries say something of the key.
pub open spec fn holds<const K: usize, const V: usize>(
    entries: Seq<([u8; K], Option<[u8; V]>)>,
    key: [u8; K],
) -> bool {
    overlay(Map::empty(), entries).contains_key(key)
}

/// The database once each key has been given what `latest` has for it.
pub open spec fn apply_latest<const K: usize, const V: usize>(
    db: Map<[u8; K], [u8; V]>,
    latest: Map<[u8; K], Option<[u8; V]>>,
) -> Map<[u8; K], [u8; V]> {
    Map::new(
        |key: [u8; K]|
            if latest.contains_key(key) {
                latest[key] is Some
            } else {
                db.contains_key(key)
            },
        |key: [u8; K]|
            if latest.contains_key(key) {
                latest[key]->0
            } else {
                db[key]
            },
    )
}

/// The last entry of each key decides what a replay leaves.
pub proof fn lemma_replay_is_latest<const K: usize, const V: usize>(
    db: Map<[u8; K], [u8; V]>,
    latest: Map<[u8; K], Option<[u8; V]>>,
    entries: Seq<([u8; K], Option<[u8; V]>)>,
)
    ensures
        replay(apply_latest(db, latest), entries) == apply_latest(db, overlay(latest, entries)),
    decreases entries.len(),
{
    if entries.len() > 0 {
        lemma_replay_is_latest(db, latest, entries.drop_last());
        assert(replay(apply_latest(db, latest), entries) =~= apply_latest(
            db,
            overlay(latest, entries),
        ));
    }
}

pub proof fn lemma_apply_nothing<const K: usize, const V: usize>(db: Map<[u8; K], [u8; V]>)
    ensures
        apply_latest(db, Map::empty()) == db,
{
    assert(apply_latest(db, Map::empty()) =~= db);
}

pub proof fn lemma_replay_tables_is_latest<const K: usize, const V: usize>(
    db: Map<[u8; K], [u8; V]>,
    latest: Map<[u8; K], Option<[u8; V]>>,
    tables: Seq<Seq<([u8; K], Option<[u8; V]>)>>,
)
    ensures
        replay_tables(apply_latest(db, latest), tables) == apply_latest(
            db,
            overlay_tables(latest, tables),
        ),
    decreases tables.len(),
{
    if tables.len() > 0 {
        lemma_replay_tables_is_latest(db, latest, tables.drop_last());
        lemma_replay_is_latest(db, overlay_tables(latest, tables.drop_last()), tables.last());
    }
}

/// Applying in one go what two maps have, the later over the earlier.
pub proof fn lemma_apply_twice<const K: usize, const V: usize>(
    db: Map<[u8; K], [u8; V]>,
    first: Map<[u8; K], Option<[u8; V]>>,
    second: Map<[u8; K], Option<[u8; V]>>,
)
    ensures
        apply_latest(apply_latest(db, first), second) == apply_latest(
            db,
            first.union_prefer_right(second),
        ),
{
    assert(apply_latest(apply_latest(db, first), second) =~= apply_latest(
        db,
        first.union_prefer_right(second),
    ));
}

/// Entries put over a map stand over it as their own last entries do.
pub proof fn lemma_overlay_base<const K: usize, const V: usize>(
    latest: Map<[u8; K], Option<[u8; V]>>,
    entries: Seq<([u8; K], Option<[u8; V]>)>,
)
    ensures
        overlay(latest, entries) == latest.union_prefer_right(overlay(Map::empty(), entries)),
    decreases entries.len(),
{
    if entries.len() > 0 {
        lemma_overlay_base(latest, entries.drop_last());
    }
    assert(overlay(latest, entries) =~= latest.union_prefer_right(overlay(Map::empty(), entries)));
}

/// Entries in ascending key order, put over nothing, are their own map.
pub proof fn lemma_overlay_ascending<const K: usize, const V: usize>(
    entries: Seq<([u8; K], Option<[u8; V]>)>,
)
    requires
        ascending(entries),
    ensures
        overlay(Map::empty(), entries) == map_of(entries),
    decreases entries.len(),
{
    if entries.len() == 0 {
        assert(overlay(Map::empty(), entries) =~= map_of(entries));
    } else {
        let front = entries.drop_last();
        let last = entries.last();
        assert(ascending(front)) by {
            assert forall|i: int, j: int| 0 <= i < j < front.len() implies
                crate::ordered_map::key_lt((#[trigger] front[i]).0@, (#[trigger] front[j]).0@) by {
                assert(front[i] == entries[i] && front[j] == entries[j]);
            }
        }
        lemma_overlay_ascending(front);
        lemma_value_at(entries, entries.len() - 1);
        assert forall|key: [u8; K]| has_key(entries, key) && key != last.0 implies has_key(front, key)
            && value_at(front, key) == value_at(entries, key) by {
            let i = choose|i: int| 0 <= i < entries.len() && (#[trigger] entries[i]).0 == key;
            assert(front[i] == entries[i]);
            lemma_value_at(front, i);
            lemma_value_at(entries, i);
        }
        assert forall|key: [u8; K]| has_key(front, key) implies has_key(entries, key) by {
            let i = choose|i: int| 0 <= i < front.len() && (#[trigger] front[i]).0 == key;
            assert(entries[i] == front[i]);
        }
        assert(overlay(Map::empty(), entries) =~= map_of(entries));
    }
}

/// Of all sstables, the last that holds a key decides on it.
pub proof fn lemma_last_holder_decides<const K: usize, const V: usize>(
    tables: Seq<Seq<([u8; K], Option<[u8; V]>)>>,
    key: [u8; K],
    i: int,
)
    requires
        0 <= i < tables.len(),
        holds(tables[i], key),
        forall|j: int| i < j < tables.len() ==> !holds(#[trigger] tables[j], key),
    ensures
        overlay_tables(Map::empty(), tables).contains_key(key),
        overlay_tables(Map::empty(), tables)[key] == overlay(Map::empty(), tables[i])[key],
    decreases tables.len(),
{
    let front = tables.drop_last();
    lemma_overlay_base(overlay_tables(Map::empty(), front), tables.last());
    if i < front.len() {
        assert(!holds(tables[tables.len() - 1], key));
        assert forall|j: int| i < j < front.len() implies !holds(#[trigger] front[j], key) by {
            assert(front[j] == tables[j]);
        }
        lemma_last_holder_decides(front, key, i);
    }
}

/// A key that no sstable holds is in none.
pub proof fn lemma_no_holder<const K: usize, const V: usize>(
    tables: Seq<Seq<([u8; K], Option<[u8; V]>)>>,
    key: [u8; K],
)
    requires
        forall|j: int| 0 <= j < tables.len() ==> !holds(#[trigger] tables[j], key),
    ensures
        !overlay_tables(Map::empty(), tables).contains_key(key),
    decreases tables.len(),
{
    if tables.len() > 0 {
        let front = tables.drop_last();
        lemma_overlay_base(overlay_tables(Map::empty(), front), tables.last());
        assert(!holds(tables[tables.len() - 1], key));
        assert forall|j: int| 0 <= j < front.len() implies !holds(#[trigger] front[j], key) by {
            assert(front[j] == tables[j]);
        }
        lemma_no_holder(front, key);
    }
}

/// Applies entries to the database in order.
pub fn replay_entries<const K: usize, const V: usize>(
    db: &mut OrderedMap<K, [u8; V]>,
    entries: &Vec<([u8; K], Option<[u8; V]>)>,
)
    requires
        old(db).wf(),
    ensures
        final(db).wf(),
        final(db)@ == replay(old(db)@, entries@),
{
    let ghost before = db@;
    let mut i: usize = 0;
    while i < entries.len()
        invariant
            i <= entries.len(),
            db.wf(),
            db@ == replay(before, entries@.take(i as int)),
        decreases entries.len() - i,
    {
        assert(entries@.take(i + 1).drop_last() =~= entries@.take(i as int));
        let (key, value) = entries[i];
        match value {
            Some(v) => {
                db.insert(key, v);
            },
            None => {
                db.remove(&key);
            },
        }
        i = i + 1;
    }
    assert(entries@.take(i as int) =~= entries@);
}

/// Puts entries over those of a map, removals too.
pub fn overlay_entries<const K: usize, const V: usize>(
    latest: &mut OrderedMap<K, Option<[u8; V]>>,
    entries: &Vec<([u8; K], Option<[u8; V]>)>,
)
    requires
        old(latest).wf(),
    ensures
        final(latest).wf(),
        final(latest)@ == overlay(old(latest)@, entries@),
{
    let ghost before = latest@;
    let mut i: usize = 0;
    while i < entries.len()
        invariant
            i <= entries.len(),
            latest.wf(),
            latest@ == overlay(before, entries@.take(i as int)),
        decreases entries.len() - i,
    {
        assert(entries@.take(i + 1).drop_last() =~= entries@.take(i as int));
        latest.insert(entries[i].0, entries[i].1);
        i = i + 1;
    }
    assert(entries@.take(i as int) =~= entries@);
}

/// Of all entries of a key, the last decides what a replay leaves: its value,
/// or nothing if it is a removal.
pub proof fn law_last_entry_decides<const K: usize, const V: usize>(
    db: Map<[u8; K], [u8; V]>,
    latest: Map<[u8; K], Option<[u8; V]>>,
    entries: Seq<([u8; K], Option<[u8; V]>)>,
    i: int,
)
    requires
        0 <= i < entries.len(),
        forall|j: int| i < j < entries.len() ==> (#[trigger] entries[j]).0 != entries[i].0,
    ensures
        replay(db, entries).get(entries[i].0) == entries[i].1,
        overlay(latest, entries).get(entries[i].0) == Some(entries[i].1),
    decreases entries.len(),
{
    let front = entries.drop_last();
    if i < front.len() {
        assert(entries[entries.len() - 1].0 != entries[i].0);
        assert forall|j: int| i < j < front.len() implies (#[trigger] front[j]).0 != front[i].0 by {
            assert(front[j] == entries[j]);
        }
        law_last_entry_decides(db, latest, front, i);
    }
}

/// A key of which the entries say nothing stays as it was.
pub proof fn law_untouched_key_stays<const K: usize, const V: usize>(
    db: Map<[u8; K], [u8; V]>,
    latest: Map<[u8; K], Option<[u8; V]>>,
    entries: Seq<([u8; K], Option<[u8; V]>)>,
    key: [u8; K],
)
    requires
        forall|j: int| 0 <= j < entries.len() ==> (#[trigger] entries[j]).0 != key,
    ensures
        replay(db, entries).get(key) == db.get(key),
        overlay(latest, entries).get(key) == latest.get(key),
    decreases entries.len(),
{
    if entries.len() > 0 {
        let front = entries.drop_last();
        assert(entries[entries.len() - 1].0 != key);
        assert forall|j: int| 0 <= j < front.len() implies (#[trigger] front[j]).0 != key by {
            assert(front[j] == entries[j]);
        }
        law_untouched_key_stays(db, latest, front, key);
    }
}

} // verus!
