//! The sizes of the sstables by id, in the order in which they are read.
use std::collections::{BTreeMap, BTreeSet};
use vstd::prelude::*;

verus! {

/// The numbers ascend.
pub open spec fn increasing(ids: Seq<u64>) -> bool {
    forall|i: int, j: int| 0 <= i < j < ids.len() ==> ids[i] < ids[j]
}

/// The ids of a finite set, from the lowest to the highest.
pub open spec fn sorted_ids(ids: Set<u64>) -> Seq<u64> {
    choose|s: Seq<u64>| increasing(s) && #[trigger] s.to_set() == ids
}

/// There is one ascending sequence of the ids of a set.
pub proof fn lemma_increasing_unique(s: Seq<u64>, t: Seq<u64>)
    requires
        increasing(s),
        increasing(t),
        s.to_set() == t.to_set(),
    ensures
        s == t,
    decreases s.len(),
{
    if s.len() == 0 {
        if t.len() > 0 {
            assert(t.to_set().contains(t[0]));
            assert(s.contains(t[0]));
        }
        assert(s =~= t);
    } else {
        assert(s.to_set().contains(s.last()));
        assert(t.contains(s.last()));
        assert(t.to_set().contains(t.last()));
        assert(s.contains(t.last()));
        let i = choose|i: int| 0 <= i < t.len() && t[i] == s.last();
        let j = choose|j: int| 0 <= j < s.len() && s[j] == t.last();
        assert(s.last() == t.last());
        assert forall|x: u64| s.drop_last().to_set().contains(x) <==> t.drop_last().to_set().contains(
            x,
        ) by {
            if s.drop_last().contains(x) {
                let n = choose|n: int| 0 <= n < s.drop_last().len() && s.drop_last()[n] == x;
                assert(s[n] == x);
                assert(s.to_set().contains(x));
                assert(t.contains(x));
                let m = choose|m: int| 0 <= m < t.len() && t[m] == x;
                assert(t.drop_last()[m] == x);
            }
            if t.drop_last().contains(x) {
                let n = choose|n: int| 0 <= n < t.drop_last().len() && t.drop_last()[n] == x;
                assert(t[n] == x);
                assert(t.to_set().contains(x));
                assert(s.contains(x));
                let m = choose|m: int| 0 <= m < s.len() && s[m] == x;
                assert(s.drop_last()[m] == x);
            }
        }
        assert(s.drop_last().to_set() =~= t.drop_last().to_set());
        lemma_increasing_unique(s.drop_last(), t.drop_last());
        assert(s =~= s.drop_last().push(s.last()));
        assert(t =~= t.drop_last().push(t.last()));
    }
}

/// A finite set of ids that is not empty has a highest one.
pub proof fn lemma_highest(ids: Set<u64>) -> (r: u64)
    requires
        ids.finite(),
        ids.len() > 0,
    ensures
        ids.contains(r),
        forall|id: u64| ids.contains(id) ==> id <= r,
    decreases ids.len(),
{
    let a = ids.choose();
    if ids.len() == 1 {
        assert forall|id: u64| ids.contains(id) implies id <= a by {
            if id != a {
                assert(ids.remove(a).contains(id));
                assert(ids.remove(a).len() == 0);
            }
        }
        a
    } else {
        let b = lemma_highest(ids.remove(a));
        assert forall|id: u64| ids.contains(id) implies id <= a || id <= b by {
            if id != a {
                assert(ids.remove(a).contains(id));
            }
        }
        if a < b {
            b
        } else {
            a
        }
    }
}

/// The sorted ids of a finite set ascend and are those of the set.
pub proof fn lemma_sorted_ids(ids: Set<u64>)
    requires
        ids.finite(),
    ensures
        increasing(sorted_ids(ids)),
        sorted_ids(ids).to_set() == ids,
        sorted_ids(ids).len() == ids.len(),
    decreases ids.len(),
{
    let s = if ids.len() == 0 {
        assert(Seq::<u64>::empty().to_set() =~= ids);
        Seq::<u64>::empty()
    } else {
        let highest = lemma_highest(ids);
        let rest = ids.remove(highest);
        lemma_sorted_ids(rest);
        let s = sorted_ids(rest).push(highest);
        assert forall|i: int, j: int| 0 <= i < j < s.len() implies s[i] < s[j] by {
            assert(sorted_ids(rest).to_set().contains(s[i]));
            assert(rest.contains(s[i]));
        }
        assert forall|id: u64| s.to_set().contains(id) <==> ids.contains(id) by {
            if ids.contains(id) && id != highest {
                assert(rest.contains(id));
                assert(sorted_ids(rest).contains(id));
                let i = choose|i: int| 0 <= i < sorted_ids(rest).len() && sorted_ids(rest)[i] == id;
                assert(s[i] == id);
            }
            if id == highest {
                assert(s.last() == id);
            }
            if s.contains(id) && id != highest {
                let i = choose|i: int| 0 <= i < s.len() && s[i] == id;
                assert(sorted_ids(rest)[i] == id);
                assert(sorted_ids(rest).to_set().contains(id));
            }
        }
        assert(s.to_set() =~= ids);
        s
    };
    assert(increasing(s) && s.to_set() == ids);
    lemma_increasing_unique(s, sorted_ids(ids));
}

/// The ids and sizes of a directory, from the lowest id to the highest.
pub fn listed(directory: &BTreeMap<u64, u64>) -> (r: Vec<(u64, u64)>)
    ensures
        r@.map_values(|table: (u64, u64)| table.0) == sorted_ids(directory@.dom()),
        increasing(sorted_ids(directory@.dom())),
        sorted_ids(directory@.dom()).to_set() == directory@.dom(),
        forall|i: int| 0 <= i < r@.len() ==> r@[i].1 == directory@[(#[trigger] r@[i]).0],
        r@.len() == directory@.len(),
{
    broadcast use vstd::std_specs::btree::group_btree_axioms;
    broadcast use vstd::laws_cmp::group_laws_cmp;

    let mut r: Vec<(u64, u64)> = Vec::new();
    let tables = directory.iter();
    let ghost all = vstd::std_specs::iter::IteratorSpec::remaining(&tables);
    let ghost keys = all.map_values(|kv: (&u64, &u64)| *kv.0);
    for table in it: tables
        invariant
            it.seq() == all,
            r@.len() == it.index(),
            forall|i: int|
                0 <= i < r@.len() ==> *all[i].0 == (#[trigger] r@[i]).0 && *all[i].1 == r@[i].1,
    {
        r.push((*table.0, *table.1));
    }
    proof {
        let ids = r@.map_values(|table: (u64, u64)| table.0);
        assert(ids =~= keys);
        assert(increasing(ids)) by {
            assert forall|i: int, j: int| 0 <= i < j < ids.len() implies ids[i] < ids[j] by {
                assert(vstd::std_specs::cmp::OrdSpec::cmp_spec(&keys[i], &keys[j]) is Less);
            }
        }
        assert(ids.to_set() =~= directory@.dom()) by {
            assert forall|id: u64| ids.contains(id) <==> directory@.contains_key(id) by {
                if ids.contains(id) {
                    let i = choose|i: int| 0 <= i < ids.len() && ids[i] == id;
                    assert(directory@.contains_key(*all[i].0));
                }
                if directory@.contains_key(id) {
                    assert(all.contains((&id, &directory@[id])));
                    let i = choose|i: int| 0 <= i < all.len() && all[i] == (&id, &directory@[id]);
                    assert(ids[i] == id);
                }
            }
        }
        lemma_sorted_ids(directory@.dom());
        lemma_increasing_unique(ids, sorted_ids(directory@.dom()));
        assert forall|i: int| 0 <= i < r@.len() implies r@[i].1 == directory@[(
        #[trigger] r@[i]).0] by {
            assert(directory@[*all[i].0] == *all[i].1);
        }
    }
    r
}

/// The ids of a set, from the lowest to the highest.
pub fn listed_ids(ids: &BTreeSet<u64>) -> (r: Vec<u64>)
    ensures
        r@ == sorted_ids(ids@),
        increasing(r@),
        r@.to_set() == ids@,
{
    broadcast use vstd::std_specs::btree::group_btree_axioms;
    broadcast use vstd::laws_cmp::group_laws_cmp;

    let mut r: Vec<u64> = Vec::new();
    let keys = ids.iter();
    let ghost all = vstd::std_specs::iter::IteratorSpec::remaining(&keys);
    for id in it: keys
        invariant
            it.seq() == all,
            r@.len() == it.index(),
            forall|i: int| 0 <= i < r@.len() ==> #[trigger] r@[i] == *all[i],
    {
        r.push(*id);
    }
    proof {
        assert(r@ =~= all.unref());
        assert forall|i: int, j: int| 0 <= i < j < r@.len() implies r@[i] < r@[j] by {
            assert(vstd::std_specs::cmp::OrdSpec::cmp_spec(&all[i], &all[j]) is Less);
        }
        assert(increasing(r@) && r@.to_set() == ids@);
        lemma_increasing_unique(r@, sorted_ids(ids@));
    }
    r
}

} // verus!
