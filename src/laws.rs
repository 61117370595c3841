//! Properties of the table's operations that hold for all inputs.
use vstd::prelude::*;
use vstd::multiset::Multiset;
use vstd::seq_lib::*;
use crate::lemmas::{lemma_deleted, lemma_inserted, lemma_rehashed};
use crate::model::TableView;

verus! {

broadcast use group_to_multiset_ensures;

/// Inserting keys one after the other keeps a table well formed, and the
/// table then holds what it held plus exactly those keys.
pub proof fn lemma_insert_all(t: TableView, keys: Seq<Seq<char>>)
    requires
        t.wf(),
    ensures
        t.insert_all(keys).wf(),
        t.insert_all(keys).contents() =~= t.contents().add(keys.to_multiset()),
    decreases keys.len(),
{
    if keys.len() == 0 {
        assert(keys.to_multiset() =~= Multiset::empty());
    } else {
        let rest = keys.drop_last();
        lemma_insert_all(t, rest);
        lemma_inserted(t.insert_all(rest), keys.last());
        assert(keys =~= rest.push(keys.last()));
    }
}

/// After keys are inserted in turn into an empty table, a key is found in it
/// exactly when it is one of them.
pub proof fn lemma_inserted_keys_found(t: TableView, keys: Seq<Seq<char>>, k: Seq<char>)
    requires
        t.wf(),
        t.count() == 0,
    ensures
        t.insert_all(keys).contains(k) <==> keys.contains(k),
{
    lemma_insert_all(t, keys);
    assert(t.contents() =~= Multiset::empty());
}

/// After `n` keys are inserted in turn into an empty table, distinct or not,
/// it counts `n` entries and its load factor is within the expand threshold.
pub proof fn lemma_inserted_count(t: TableView, keys: Seq<Seq<char>>)
    requires
        t.wf(),
        t.count() == 0,
    ensures
        t.insert_all(keys).count() == keys.len(),
        !t.insert_all(keys).over_expand(t.insert_all(keys).count(), t.insert_all(keys).capacity()),
{
    lemma_insert_all(t, keys);
    assert(t.contents() =~= Multiset::empty());
}

/// Deleting a key held once leaves it no longer found, and one entry fewer.
pub proof fn lemma_delete_sole_copy(t: TableView, k: Seq<char>)
    requires
        t.wf(),
        t.contents().count(k) == 1,
    ensures
        !t.deleted(k).contains(k),
        t.deleted(k).count() == t.count() - 1,
{
    lemma_deleted(t, k);
}

/// Rehashing to any positive capacity keeps every key as often as it was
/// held: none is lost and none is duplicated.
pub proof fn lemma_rehash_keeps_keys(t: TableView, capacity: nat)
    requires
        capacity > 0,
    ensures
        t.rehashed(capacity).contents() == t.contents(),
        t.rehashed(capacity).count() == t.count(),
{
    lemma_rehashed(t, capacity);
}

} // verus!
