//! The contents of ordered collections, in order.
use std::collections::{BTreeMap, BTreeSet};
use vstd::prelude::*;
use vstd::std_specs::cmp::OrdSpec;
use vstd::std_specs::iter::IteratorSpec;

verus! {

/// Each number is below the next.
pub open spec fn ascending(s: Seq<u64>) -> bool {
    forall|i: int, j: int| 0 <= i < j < s.len() ==> s[i] < s[j]
}

proof fn lemma_increasing<K: Ord>(s: Seq<K>, i: int, j: int)
    requires
        vstd::laws_cmp::obeys_cmp::<K>(),
        vstd::std_specs::btree::increasing_seq(s),
        0 <= i < j < s.len(),
    ensures
        s[i].cmp_spec(&s[j]) is Less,
{
    broadcast use vstd::std_specs::btree::group_btree_axioms;

}

proof fn lemma_increasing_is_ascending(s: Seq<&u64>)
    requires
        vstd::std_specs::btree::increasing_seq(s),
    ensures
        forall|i: int, j: int| 0 <= i < j < s.len() ==> *s[i] < *s[j],
{
    broadcast use vstd::std_specs::btree::group_btree_axioms;

    assert(vstd::laws_cmp::obeys_cmp::<&u64>()) by {
        reveal(vstd::laws_eq::obeys_eq);
        reveal(vstd::laws_cmp::obeys_cmp_partial_ord);
        reveal(vstd::laws_cmp::obeys_cmp_ord);
    }
    assert forall|i: int, j: int| 0 <= i < j < s.len() implies *s[i] < *s[j] by {
        lemma_increasing(s, i, j);
    }
}

/// The members of a set in ascending order.
pub(crate) fn members(set: &BTreeSet<u64>) -> (r: Vec<u64>)
    ensures
        ascending(r@),
        forall|x: u64| r@.contains(x) <==> set@.contains(x),
{
    broadcast use vstd::std_specs::btree::group_btree_axioms;

    let mut r: Vec<u64> = Vec::new();
    let iter = set.iter();
    let ghost items = iter.remaining();
    proof {
        lemma_increasing_is_ascending(items);
    }
    for x in it: iter
        invariant
            it.seq() == items,
            r@.len() == it.index(),
            forall|i: int| 0 <= i < r@.len() ==> r@[i] == *items[i],
    {
        r.push(*x);
    }
    proof {
        assert(items.unref().to_set() == set@);
        assert(r@ =~= items.unref());
        assert forall|x: u64| r@.contains(x) <==> set@.contains(x) by {
            assert(items.unref().to_set().contains(x) <==> items.unref().contains(x));
        }
    }
    r
}

/// `entries` holds the entries of `map`, each once and with ascending keys.
pub open spec fn lists_u32<V>(entries: Seq<(u32, V)>, map: Map<u32, V>) -> bool {
    &&& forall|i: int, j: int| 0 <= i < j < entries.len() ==> entries[i].0 < entries[j].0
    &&& forall|i: int|
        0 <= i < entries.len() ==> map.contains_key((#[trigger] entries[i]).0)
            && map[entries[i].0] == entries[i].1
    &&& forall|k: u32| #[trigger]
        map.contains_key(k) ==> exists|i: int| 0 <= i < entries.len() && entries[i].0 == k
    &&& entries.len() == map.dom().len()
}

proof fn lemma_ascending_u32(s: Seq<u32>)
    requires
        vstd::std_specs::btree::increasing_seq(s),
    ensures
        forall|i: int, j: int| 0 <= i < j < s.len() ==> s[i] < s[j],
{
    broadcast use vstd::std_specs::btree::group_btree_axioms;

    assert forall|i: int, j: int| 0 <= i < j < s.len() implies s[i] < s[j] by {
        lemma_increasing(s, i, j);
    }
}

/// The entries of a map, with ascending keys.
pub(crate) fn entries_u32<V: Copy>(map: &BTreeMap<u32, V>) -> (r: Vec<(u32, V)>)
    ensures
        lists_u32(r@, map@),
{
    broadcast use vstd::std_specs::btree::group_btree_axioms;

    let mut r: Vec<(u32, V)> = Vec::new();
    let iter = map.iter();
    let ghost items = iter.remaining();
    let ghost keys = items.map_values(|kv: (&u32, &V)| *kv.0);
    proof {
        lemma_ascending_u32(keys);
    }
    for (k, v) in it: iter
        invariant
            it.seq() == items,
            r@.len() == it.index(),
            forall|i: int| 0 <= i < r@.len() ==> r@[i] == (*items[i].0, *items[i].1),
    {
        r.push((*k, *v));
    }
    proof {
        assert(items == vstd::std_specs::btree::spec_btree_map_iter(map).remaining());
        assert forall|i: int, j: int| 0 <= i < j < r@.len() implies r@[i].0 < r@[j].0 by {
            assert(keys[i] < keys[j]);
        }
        assert forall|i: int| 0 <= i < r@.len() implies map@.contains_key((#[trigger] r@[i]).0)
            && map@[r@[i].0] == r@[i].1 by {
            assert(map@.contains_key(*items[i].0));
        }
        assert forall|k: u32| #[trigger] map@.contains_key(k) implies exists|i: int|
            0 <= i < r@.len() && r@[i].0 == k by {
            assert(items.contains((&k, &map@[k])));
            let i = choose|i: int| 0 <= i < items.len() && items[i] == (&k, &map@[k]);
            assert(r@[i].0 == k);
        }
    }
    r
}

/// `entries` holds the entries of `map`, each once and with ascending keys.
pub open spec fn lists_u64<V>(entries: Seq<(u64, V)>, map: Map<u64, V>) -> bool {
    &&& forall|i: int, j: int| 0 <= i < j < entries.len() ==> entries[i].0 < entries[j].0
    &&& forall|i: int|
        0 <= i < entries.len() ==> map.contains_key((#[trigger] entries[i]).0)
            && map[entries[i].0] == entries[i].1
    &&& forall|k: u64| #[trigger]
        map.contains_key(k) ==> exists|i: int| 0 <= i < entries.len() && entries[i].0 == k
    &&& entries.len() == map.dom().len()
}

proof fn lemma_ascending_u64(s: Seq<u64>)
    requires
        vstd::std_specs::btree::increasing_seq(s),
    ensures
        forall|i: int, j: int| 0 <= i < j < s.len() ==> s[i] < s[j],
{
    broadcast use vstd::std_specs::btree::group_btree_axioms;

    assert forall|i: int, j: int| 0 <= i < j < s.len() implies s[i] < s[j] by {
        lemma_increasing(s, i, j);
    }
}

/// The entries of a map, with ascending keys.
pub(crate) fn entries_u64<V: Copy>(map: &BTreeMap<u64, V>) -> (r: Vec<(u64, V)>)
    ensures
        lists_u64(r@, map@),
{
    broadcast use vstd::std_specs::btree::group_btree_axioms;

    let mut r: Vec<(u64, V)> = Vec::new();
    let iter = map.iter();
    let ghost items = iter.remaining();
    let ghost keys = items.map_values(|kv: (&u64, &V)| *kv.0);
    proof {
        lemma_ascending_u64(keys);
    }
    for (k, v) in it: iter
        invariant
            it.seq() == items,
            r@.len() == it.index(),
            forall|i: int| 0 <= i < r@.len() ==> r@[i] == (*items[i].0, *items[i].1),
    {
        r.push((*k, *v));
    }
    proof {
        assert(items == vstd::std_specs::btree::spec_btree_map_iter(map).remaining());
        assert forall|i: int, j: int| 0 <= i < j < r@.len() implies r@[i].0 < r@[j].0 by {
            assert(keys[i] < keys[j]);
        }
        assert forall|i: int| 0 <= i < r@.len() implies map@.contains_key((#[trigger] r@[i]).0)
            && map@[r@[i].0] == r@[i].1 by {
            assert(map@.contains_key(*items[i].0));
        }
        assert forall|k: u64| #[trigger] map@.contains_key(k) implies exists|i: int|
            0 <= i < r@.len() && r@[i].0 == k by {
            assert(items.contains((&k, &map@[k])));
            let i = choose|i: int| 0 <= i < items.len() && items[i] == (&k, &map@[k]);
            assert(r@[i].0 == k);
        }
    }
    r
}

} // verus!
