//! Facts about the model used by the table's proofs.
use vstd::prelude::*;
use vstd::multiset::Multiset;
use vstd::seq_lib::*;
use crate::hashing::{bucket_of, key_hash};
use crate::model::{all_keys, first_index, is_pow2, keys_of, placed, spread, Chains, TableView};

verus! {

broadcast use {group_to_multiset_ensures, group_filter_ensures, Seq::lemma_filter_push};

pub proof fn lemma_pow2_double(n: nat)
    requires
        is_pow2(n),
    ensures
        is_pow2(2 * n),
{
    assert((2 * n) / 2 == n);
    assert((2 * n) % 2 == 0);
}

pub proof fn lemma_pow2_half(n: nat)
    requires
        is_pow2(n),
        n > 1,
    ensures
        is_pow2(n / 2),
        n % 2 == 0,
        n / 2 >= 1,
{
}

pub proof fn lemma_keys_of_update(chains: Chains, b: int, d: Seq<Seq<char>>)
    requires
        0 <= b < chains.len(),
    ensures
        keys_of(chains.update(b, d)).add(chains[b].to_multiset()) =~= keys_of(chains).add(
            d.to_multiset(),
        ),
    decreases chains.len(),
{
    let u = chains.update(b, d);
    if b == chains.len() - 1 {
        assert(u.drop_last() =~= chains.drop_last());
        assert(keys_of(u) == keys_of(chains.drop_last()).add(d.to_multiset()));
    } else {
        assert(u.drop_last() =~= chains.drop_last().update(b, d));
        lemma_keys_of_update(chains.drop_last(), b, d);
        assert(keys_of(u) == keys_of(u.drop_last()).add(chains.last().to_multiset()));
    }
    let l = keys_of(u).add(chains[b].to_multiset());
    let r = keys_of(chains).add(d.to_multiset());
    assert forall|y: Seq<char>| l.count(y) == r.count(y) by {
        if b < chains.len() - 1 {
            assert(keys_of(u.drop_last()).add(chains[b].to_multiset()).count(y) == keys_of(
                chains.drop_last(),
            ).add(d.to_multiset()).count(y));
        }
    }
}

pub proof fn lemma_keys_of_empty(chains: Chains)
    requires
        forall|j: int| 0 <= j < chains.len() ==> (#[trigger] chains[j]).len() == 0,
    ensures
        keys_of(chains) =~= Multiset::empty(),
    decreases chains.len(),
{
    if chains.len() > 0 {
        lemma_keys_of_empty(chains.drop_last());
        assert(chains.last() =~= Seq::<Seq<char>>::empty());
        assert(chains.last().to_multiset() =~= Multiset::empty());
    }
}

pub proof fn lemma_keys_of_all_keys(chains: Chains)
    ensures
        keys_of(chains) =~= all_keys(chains).to_multiset(),
    decreases chains.len(),
{
    if chains.len() > 0 {
        lemma_keys_of_all_keys(chains.drop_last());
        lemma_multiset_commutative(all_keys(chains.drop_last()), chains.last());
    } else {
        assert(all_keys(chains).to_multiset() =~= Multiset::empty());
    }
}

pub proof fn lemma_bucket_bound(k: Seq<char>, capacity: nat)
    requires
        capacity > 0,
    ensures
        bucket_of(k, capacity) < capacity,
{
    let h = key_hash(k) as nat;
    assert(h % capacity < capacity) by (nonlinear_arith)
        requires
            capacity > 0,
    ;
}

pub proof fn lemma_spread_push(keys: Seq<Seq<char>>, x: Seq<char>, capacity: nat)
    requires
        capacity > 0,
    ensures
        ({
            let s = spread(keys, capacity);
            let b = bucket_of(x, capacity) as int;
            &&& 0 <= b < s.len()
            &&& spread(keys.push(x), capacity) =~= s.update(b, s[b].push(x))
        }),
{
    lemma_bucket_bound(x, capacity);
}

pub proof fn lemma_keys_of_spread(keys: Seq<Seq<char>>, capacity: nat)
    requires
        capacity > 0,
    ensures
        keys_of(spread(keys, capacity)) =~= keys.to_multiset(),
    decreases keys.len(),
{
    if keys.len() == 0 {
        reveal(Seq::filter);
        lemma_keys_of_empty(spread(keys, capacity));
        assert(keys.to_multiset() =~= Multiset::empty());
    } else {
        let ks = keys.drop_last();
        let x = keys.last();
        assert(keys =~= ks.push(x));
        lemma_keys_of_spread(ks, capacity);
        let s = spread(ks, capacity);
        let b = bucket_of(x, capacity) as int;
        lemma_spread_push(ks, x, capacity);
        lemma_keys_of_update(s, b, s[b].push(x));
        let n = keys_of(spread(keys, capacity));
        assert forall|y: Seq<char>| n.count(y) == keys.to_multiset().count(y) by {
            assert(n.add(s[b].to_multiset()).count(y) == keys_of(s).add(
                s[b].push(x).to_multiset(),
            ).count(y));
        }
        assert(n =~= keys.to_multiset());
    }
}

/// Rehashing keeps the keys and puts each in its bucket.
pub proof fn lemma_rehashed(t: TableView, capacity: nat)
    requires
        capacity > 0,
    ensures
        t.rehashed(capacity).contents() == t.contents(),
        t.rehashed(capacity).capacity() == capacity,
        placed(t.rehashed(capacity).chains),
{
    lemma_keys_of_all_keys(t.chains);
    lemma_keys_of_spread(all_keys(t.chains), capacity);
    let s = spread(all_keys(t.chains), capacity);
    assert forall|j: int, i: int| 0 <= j < s.len() && 0 <= i < s[j].len() implies bucket_of(
        #[trigger] s[j][i],
        s.len(),
    ) == j by {
        let p = |k: Seq<char>| bucket_of(k, capacity) == j;
        assert(s[j] == all_keys(t.chains).filter(p));
        assert(p(all_keys(t.chains).filter(p)[i]));
    }
}

pub proof fn lemma_count_single(chains: Chains, k: Seq<char>, b: int)
    requires
        forall|j: int, i: int|
            0 <= j < chains.len() && j != b && 0 <= i < chains[j].len() ==> #[trigger] chains[j][i]
                != k,
    ensures
        keys_of(chains).count(k) == if 0 <= b < chains.len() {
            chains[b].to_multiset().count(k)
        } else {
            0
        },
    decreases chains.len(),
{
    if chains.len() > 0 {
        let n = chains.len() - 1;
        lemma_count_single(chains.drop_last(), k, b);
        if b != n {
            assert forall|i: int| 0 <= i < chains[n].len() implies chains[n][i] != k by {
                assert(chains[n][i] != k);
            }
            assert(!chains.last().contains(k));
        }
    }
}

/// In a table whose keys sit in their buckets, a key is held exactly as often
/// as its own bucket's chain holds it.
pub proof fn lemma_found_in_bucket(t: TableView, k: Seq<char>)
    requires
        placed(t.chains),
        t.capacity() > 0,
    ensures
        t.contents().count(k) == t.chains[t.bucket(k)].to_multiset().count(k),
        t.contains(k) <==> t.chains[t.bucket(k)].contains(k),
{
    lemma_count_single(t.chains, k, t.bucket(k));
}

pub proof fn lemma_first_index_absent(chain: Seq<Seq<char>>, key: Seq<char>)
    requires
        forall|i: int| 0 <= i < chain.len() ==> chain[i] != key,
    ensures
        first_index(chain, key) == -1,
    decreases chain.len(),
{
    if chain.len() > 0 {
        lemma_first_index_absent(chain.drop_last(), key);
    }
}

pub proof fn lemma_first_index_at(chain: Seq<Seq<char>>, key: Seq<char>, i: int)
    requires
        0 <= i < chain.len(),
        chain[i] == key,
        forall|j: int| 0 <= j < i ==> chain[j] != key,
    ensures
        first_index(chain, key) == i,
    decreases chain.len(),
{
    if i == chain.len() - 1 {
        lemma_first_index_absent(chain.drop_last(), key);
    } else {
        lemma_first_index_at(chain.drop_last(), key, i);
    }
}

pub proof fn lemma_first_index_cases(chain: Seq<Seq<char>>, key: Seq<char>)
    ensures
        ({
            let p = first_index(chain, key);
            (p == -1 && !chain.contains(key)) || (0 <= p < chain.len() && chain[p] == key)
        }),
    decreases chain.len(),
{
    if chain.len() > 0 {
        lemma_first_index_cases(chain.drop_last(), key);
        if first_index(chain, key) == -1 {
            assert forall|i: int| 0 <= i < chain.len() implies chain[i] != key by {
                if i < chain.len() - 1 {
                    assert(chain.drop_last()[i] == chain[i]);
                }
            }
        }
    }
}

/// Appending a key adds it to the keys and keeps every key in its bucket.
pub proof fn lemma_appended(t: TableView, k: Seq<char>)
    requires
        t.capacity() > 0,
        placed(t.chains),
    ensures
        t.appended(k).contents() =~= t.contents().insert(k),
        t.appended(k).capacity() == t.capacity(),
        placed(t.appended(k).chains),
{
    let b = t.bucket(k);
    let c = t.chains[b];
    lemma_bucket_bound(k, t.capacity());
    lemma_keys_of_update(t.chains, b, c.push(k));
    let u = t.appended(k).chains;
    let n = keys_of(u);
    assert forall|y: Seq<char>| n.count(y) == t.contents().insert(k).count(y) by {
        assert(n.add(c.to_multiset()).count(y) == keys_of(t.chains).add(
            c.push(k).to_multiset(),
        ).count(y));
    }
    assert forall|j: int, i: int| 0 <= j < u.len() && 0 <= i < u[j].len() implies bucket_of(
        #[trigger] u[j][i],
        u.len(),
    ) == j by {
        if j == b && i < c.len() {
            assert(u[j][i] == c[i]);
        }
    }
}

/// Unlinking a key removes one copy of it, if any, and keeps every key in its
/// bucket.
pub proof fn lemma_unlinked(t: TableView, k: Seq<char>)
    requires
        t.capacity() > 0,
        placed(t.chains),
    ensures
        t.unlinked(k).contents() =~= t.contents().remove(k),
        t.unlinked(k).capacity() == t.capacity(),
        placed(t.unlinked(k).chains),
{
    let b = t.bucket(k);
    let c = t.chains[b];
    let p = first_index(c, k);
    lemma_bucket_bound(k, t.capacity());
    lemma_first_index_cases(c, k);
    lemma_found_in_bucket(t, k);
    if p >= 0 {
        let d = c.remove(p);
        lemma_keys_of_update(t.chains, b, d);
        let u = t.unlinked(k).chains;
        let n = keys_of(u);
        assert forall|y: Seq<char>| n.count(y) == t.contents().remove(k).count(y) by {
            assert(n.add(c.to_multiset()).count(y) == keys_of(t.chains).add(
                d.to_multiset(),
            ).count(y));
        }
        assert forall|j: int, i: int| 0 <= j < u.len() && 0 <= i < u[j].len() implies bucket_of(
            #[trigger] u[j][i],
            u.len(),
        ) == j by {
            if j == b {
                if i < p {
                    assert(u[j][i] == c[i]);
                } else {
                    assert(u[j][i] == c[i + 1]);
                }
            }
        }
    } else {
        assert(t.contents().count(k) == 0);
    }
}

/// Insertion keeps a table well formed and adds the key once.
pub proof fn lemma_inserted(t: TableView, k: Seq<char>)
    requires
        t.wf(),
    ensures
        t.inserted(k).wf(),
        t.inserted(k).contents() =~= t.contents().insert(k),
{
    lemma_appended(t, k);
    let a = t.appended(k);
    let cap = t.capacity();
    let c = t.count();
    assert(a.count() == c + 1);
    if t.over_expand(a.count(), cap) {
        lemma_rehashed(a, 2 * cap);
        lemma_pow2_double(cap);
        let (en, ed) = (t.expand_num, t.expand_den);
        assert((c + 1) * ed <= (2 * cap) * en) by (nonlinear_arith)
            requires
                c * ed <= cap * en,
                ed <= en,
                cap >= 1,
        ;
    }
}

/// Deletion keeps a table well formed and removes one copy of the key, if
/// there is one.
pub proof fn lemma_deleted(t: TableView, k: Seq<char>)
    requires
        t.wf(),
    ensures
        t.deleted(k).wf(),
        t.deleted(k).contents() =~= t.contents().remove(k),
{
    lemma_unlinked(t, k);
    let u = t.unlinked(k);
    let cap = t.capacity();
    let c = t.count();
    let c2 = u.count();
    if t.contents().count(k) == 0 {
        assert(t.contents().remove(k) =~= t.contents());
    }
    assert(c2 <= c);
    let (en, ed, sn, sd) = (t.expand_num, t.expand_den, t.shrink_num, t.shrink_den);
    if cap > 1 && t.under_shrink(c2, cap) {
        lemma_pow2_half(cap);
        lemma_rehashed(u, cap / 2);
        let h = cap / 2;
        assert(cap == 2 * h);
        assert(c2 * sd * ed < 2 * h * sn * ed) by (nonlinear_arith)
            requires
                c2 * sd < 2 * h * sn,
                ed > 0,
        ;
        assert(2 * h * sn * ed <= h * en * sd) by (nonlinear_arith)
            requires
                2 * sn * ed <= en * sd,
        ;
        assert(c2 * ed < h * en) by (nonlinear_arith)
            requires
                c2 * sd * ed < h * en * sd,
                sd > 0,
        ;
    } else {
        assert(c2 * ed <= c * ed) by (nonlinear_arith)
            requires
                c2 <= c,
        ;
    }
}

} // verus!
