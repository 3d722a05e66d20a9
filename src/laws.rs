use vstd::prelude::*;
use vstd::multiset::Multiset;
use crate::entry::Entry;
use crate::node::{found_in, lemma_unique_strict, unique_keys};
use crate::tree::BTree;

verus! {

/// The entry that inserting the pair `p` stores.
pub open spec fn entry_of<P: Copy>(p: (u64, P)) -> Entry<P> {
    Entry { key: p.0, value: p.1 }
}

/// What a tree holds after the pairs `pairs` were inserted, in order, into an empty tree.
pub open spec fn inserted<P: Copy>(pairs: Seq<(u64, P)>) -> Multiset<Entry<P>>
    decreases pairs.len(),
{
    if pairs.len() == 0 {
        Multiset::empty()
    } else {
        inserted(pairs.drop_last()).insert(entry_of(pairs.last()))
    }
}

/// No two of the pairs share a key.
pub open spec fn distinct_keys<P>(pairs: Seq<(u64, P)>) -> bool {
    forall|i: int, j: int| 0 <= i < pairs.len() && 0 <= j < pairs.len() && i != j ==> pairs[i].0 != pairs[j].0
}

proof fn lemma_inserted_members<P: Copy>(pairs: Seq<(u64, P)>)
    ensures
        forall|e: Entry<P>| #[trigger] inserted(pairs).count(e) > 0 ==> exists|j: int| 0 <= j < pairs.len() && entry_of(#[trigger] pairs[j]) == e,
        forall|j: int| 0 <= j < pairs.len() ==> inserted(pairs).count(entry_of(#[trigger] pairs[j])) > 0,
        inserted(pairs).len() == pairs.len(),
    decreases pairs.len(),
{
    broadcast use vstd::multiset::group_multiset_axioms;

    if pairs.len() > 0 {
        let pre = pairs.drop_last();
        lemma_inserted_members(pre);
        assert forall|e: Entry<P>| #[trigger] inserted(pairs).count(e) > 0 implies exists|j: int| 0 <= j < pairs.len() && entry_of(#[trigger] pairs[j]) == e by {
            if e != entry_of(pairs.last()) {
                let j = choose|j: int| 0 <= j < pre.len() && entry_of(#[trigger] pre[j]) == e;
                assert(pairs[j] == pre[j]);
            } else {
                assert(pairs[pairs.len() - 1] == pairs.last());
            }
        }
        assert forall|j: int| 0 <= j < pairs.len() implies inserted(pairs).count(entry_of(#[trigger] pairs[j])) > 0 by {
            if j < pairs.len() - 1 {
                assert(pairs[j] == pre[j]);
            }
        }
    }
}

proof fn lemma_inserted_once<P: Copy>(pairs: Seq<(u64, P)>, i: int)
    requires
        distinct_keys(pairs),
        0 <= i < pairs.len(),
    ensures
        inserted(pairs).count(entry_of(pairs[i])) == 1,
    decreases pairs.len(),
{
    broadcast use vstd::multiset::group_multiset_axioms;

    let pre = pairs.drop_last();
    lemma_inserted_members(pre);
    if i == pairs.len() - 1 {
        if inserted(pre).count(entry_of(pairs[i])) > 0 {
            let j = choose|j: int| 0 <= j < pre.len() && entry_of(#[trigger] pre[j]) == entry_of(pairs[i]);
            assert(pairs[j] == pre[j]);
        }
    } else {
        assert(pairs[i] == pre[i]);
        lemma_inserted_once(pre, i);
        assert(pairs[pairs.len() - 1].0 != pairs[i].0);
    }
}

/// With distinct keys, a lookup of an inserted key finds exactly the entry
/// inserted with it.
pub proof fn lemma_search_finds_inserted<P: Copy>(pairs: Seq<(u64, P)>, i: int, r: Option<Entry<P>>)
    requires
        distinct_keys(pairs),
        0 <= i < pairs.len(),
        found_in(inserted(pairs), pairs[i].0, r),
    ensures
        r == Some(entry_of(pairs[i])),
{
    lemma_inserted_members(pairs);
    match r {
        Some(e) => {
            let j = choose|j: int| 0 <= j < pairs.len() && entry_of(#[trigger] pairs[j]) == e;
        },
        None => {
            assert(inserted(pairs).count(entry_of(pairs[i])) > 0);
        },
    }
}

/// A lookup of a key that none of the inserted pairs has finds nothing.
pub proof fn lemma_search_misses_absent<P: Copy>(pairs: Seq<(u64, P)>, key: u64, r: Option<Entry<P>>)
    requires
        forall|j: int| 0 <= j < pairs.len() ==> (#[trigger] pairs[j]).0 != key,
        found_in(inserted(pairs), key, r),
    ensures
        r is None,
{
    lemma_inserted_members(pairs);
    if let Some(e) = r {
        let j = choose|j: int| 0 <= j < pairs.len() && entry_of(#[trigger] pairs[j]) == e;
    }
}

/// With distinct keys, any two outcomes that a lookup may give agree: the
/// binary probe and the linear scan find the same entry.
pub proof fn lemma_lookups_agree<P: Copy>(pairs: Seq<(u64, P)>, key: u64, r1: Option<Entry<P>>, r2: Option<Entry<P>>)
    requires
        distinct_keys(pairs),
        found_in(inserted(pairs), key, r1),
        found_in(inserted(pairs), key, r2),
    ensures
        r1 == r2,
{
    lemma_inserted_members(pairs);
    if exists|j: int| 0 <= j < pairs.len() && (#[trigger] pairs[j]).0 == key {
        let j = choose|j: int| 0 <= j < pairs.len() && (#[trigger] pairs[j]).0 == key;
        lemma_search_finds_inserted(pairs, j, r1);
        lemma_search_finds_inserted(pairs, j, r2);
    } else {
        lemma_search_misses_absent(pairs, key, r1);
        lemma_search_misses_absent(pairs, key, r2);
    }
}

/// A traversal of a tree built from `pairs` has one entry per inserted pair;
/// with distinct keys, each inserted entry occurs in it exactly once.
pub proof fn lemma_traversal_counts<P: Copy>(pairs: Seq<(u64, P)>, s: Seq<Entry<P>>)
    requires
        s.to_multiset() == inserted(pairs),
    ensures
        s.len() == pairs.len(),
        distinct_keys(pairs) ==> forall|i: int| 0 <= i < pairs.len() ==> s.to_multiset().count(entry_of(#[trigger] pairs[i])) == 1,
{
    lemma_inserted_members(pairs);
    vstd::seq_lib::to_multiset_len(s);
    if distinct_keys(pairs) {
        assert forall|i: int| 0 <= i < pairs.len() implies s.to_multiset().count(entry_of(#[trigger] pairs[i])) == 1 by {
            lemma_inserted_once(pairs, i);
        }
    }
}

/// After distinct keys were inserted, every node's keys strictly ascend (the
/// tree's own invariant already bounds each node's size, keeps the leaves at one
/// depth and orders each node's keys).
pub proof fn lemma_distinct_inserts_strict<P: Copy>(tree: BTree<P>, pairs: Seq<(u64, P)>)
    requires
        tree.wf(),
        tree@ == inserted(pairs),
        distinct_keys(pairs),
    ensures
        tree.root matches Some(r) ==> r.strictly_sorted_at(r.height@),
{
    if let Some(r) = tree.root {
        let s = tree.entries();
        lemma_inserted_members(pairs);
        assert forall|a: int, b: int| 0 <= a < b < s.len() implies s[a].key != s[b].key by {
            if s[a].key == s[b].key {
                vstd::seq_lib::to_multiset_contains(s, s[a]);
                vstd::seq_lib::to_multiset_contains(s, s[b]);
                assert(s.contains(s[a]));
                assert(s.contains(s[b]));
                let i = choose|i: int| 0 <= i < pairs.len() && entry_of(#[trigger] pairs[i]) == s[a];
                let j = choose|j: int| 0 <= j < pairs.len() && entry_of(#[trigger] pairs[j]) == s[b];
                assert(i == j);
                lemma_inserted_once(pairs, i);
                vstd::seq_lib::to_multiset_remove(s, a);
                let s2 = s.remove(a);
                assert(s2[b - 1] == s[b]);
                vstd::seq_lib::to_multiset_contains(s2, s[b]);
                assert(s2.contains(s[b]));
                broadcast use vstd::multiset::group_multiset_axioms;
            }
        }
        assert(unique_keys(r.contents()));
        lemma_unique_strict(r, r.height@, 0, u64::MAX as int);
    }
}

} // verus!
