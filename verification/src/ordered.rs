//! Ordered maps and sets of node ids.

use std::collections::{BTreeMap, BTreeSet};
use vstd::laws_cmp::{group_laws_cmp, obeys_cmp};
use vstd::prelude::*;
use vstd::std_specs::btree::{group_btree_axioms, increasing_seq};
use vstd::std_specs::cmp::OrdSpec;
use vstd::std_specs::iter::IteratorSpec;

verus! {

/// The ids grow from each to the next.
pub open spec fn ascending(ids: Seq<u32>) -> bool {
    forall|i: int, j: int| 0 <= i < j < ids.len() ==> ids[i] < ids[j]
}

/// The standard order of 32-bit numbers is one that ordered maps and sets can rely on.
pub proof fn lemma_ids_ordered()
    ensures
        obeys_cmp::<u32>(),
{
    broadcast use group_laws_cmp;

}

/// A sequence that increases in the standard order ascends.
proof fn lemma_ascending(ids: Seq<u32>)
    requires
        increasing_seq(ids),
    ensures
        ascending(ids),
{
    broadcast use {group_laws_cmp, group_btree_axioms};

    assert forall|i: int, j: int| 0 <= i < j < ids.len() implies ids[i] < ids[j] by {
        assert(ids[i].cmp_spec(&ids[j]) is Less);
    }
}

/// The ids of a map, in ascending order.
pub fn ids_of<V>(m: &BTreeMap<u32, V>) -> (r: Vec<u32>)
    ensures
        ascending(r@),
        r@.to_set() =~= m@.dom(),
{
    proof {
        lemma_ids_ordered();
    }
    let mut out: Vec<u32> = Vec::new();
    let pairs = m.iter();
    let ghost all = pairs.remaining();
    let ghost ids = all.map_values(|kv: (&u32, &V)| *kv.0);
    proof {
        lemma_ascending(ids);
        assert(ids.to_set() =~= m@.dom()) by {
            assert forall|id: u32| ids.to_set().contains(id) implies m@.contains_key(id) by {
                let i = choose|i: int| 0 <= i < ids.len() && ids[i] == id;
                assert(m@.contains_key(*all[i].0));
            }
            assert forall|id: u32| m@.contains_key(id) implies ids.to_set().contains(id) by {
                assert(all.contains((&id, &m@[id])));
                let i = choose|i: int| 0 <= i < all.len() && all[i] == (&id, &m@[id]);
                assert(ids[i] == id);
            }
        }
    }
    for kv in it: pairs
        invariant
            it.seq() == all,
            ids == all.map_values(|kv: (&u32, &V)| *kv.0),
            out@ =~= ids.take(it.index() as int),
    {
        out.push(*kv.0);
    }
    assert(out@ =~= ids);
    out
}

/// The smallest id of a set.
pub fn first_id(s: &BTreeSet<u32>) -> (r: Option<u32>)
    ensures
        match r {
            Some(id) => s@.contains(id) && (forall|other: u32| #[trigger]
                s@.contains(other) ==> id <= other),
            None => s@ =~= Set::empty(),
        },
{
    proof {
        lemma_ids_ordered();
    }
    let mut out: Option<u32> = None;
    let ids = s.iter();
    let ghost all = ids.remaining();
    for id in it: ids
        invariant
            it.seq() == all,
            match out {
                Some(least) => (exists|i: int| 0 <= i < it.index() && *#[trigger] all[i] == least)
                    && (forall|i: int| 0 <= i < it.index() ==> least <= *#[trigger] all[i]),
                None => it.index() == 0,
            },
    {
        assert(*id == *all[it.index() as int]);
        match out {
            Some(least) => {
                if *id < least {
                    out = Some(*id);
                }
            },
            None => {
                out = Some(*id);
            },
        }
    }
    proof {
        assert forall|other: u32| #[trigger] s@.contains(other) implies exists|i: int|
            0 <= i < all.len() && *#[trigger] all[i] == other by {
            assert(all.unref().to_set().contains(other));
            let i = choose|i: int| 0 <= i < all.unref().len() && all.unref()[i] == other;
            assert(*all[i] == other);
        }
        assert forall|i: int| 0 <= i < all.len() implies s@.contains(*#[trigger] all[i]) by {
            assert(all.unref()[i] == *all[i]);
            assert(all.unref().to_set().contains(all.unref()[i]));
        }
    }
    out
}

} // verus!
