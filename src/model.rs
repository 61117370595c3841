//! The mathematical model of a table: its chains, one per bucket, and the
//! effect of each operation on them.
use vstd::prelude::*;
use vstd::multiset::Multiset;
use crate::hashing::bucket_of;

verus! {

/// The chains of a table, one per bucket; each chain holds keys in order.
pub type Chains = Seq<Seq<Seq<char>>>;

/// `n` is a power of two (1, 2, 4, ...).
pub open spec fn is_pow2(n: nat) -> bool
    decreases n,
{
    if n <= 1 {
        n == 1
    } else {
        n % 2 == 0 && is_pow2(n / 2)
    }
}

/// Every key of every chain, bucket by bucket, each chain in its order.
pub open spec fn all_keys(chains: Chains) -> Seq<Seq<char>>
    decreases chains.len(),
{
    if chains.len() == 0 {
        Seq::empty()
    } else {
        all_keys(chains.drop_last()) + chains.last()
    }
}

/// The keys held by the chains, counted with multiplicity.
pub open spec fn keys_of(chains: Chains) -> Multiset<Seq<char>>
    decreases chains.len(),
{
    if chains.len() == 0 {
        Multiset::empty()
    } else {
        keys_of(chains.drop_last()).add(chains.last().to_multiset())
    }
}

/// The chains that distributing `keys`, in order, over `capacity` buckets
/// produces: bucket `j` holds, in order, the keys whose bucket is `j`.
pub open spec fn spread(keys: Seq<Seq<char>>, capacity: nat) -> Chains {
    Seq::new(capacity, |j: int| keys.filter(|k: Seq<char>| bucket_of(k, capacity) == j))
}

/// Every key sits in the chain of its own bucket.
pub open spec fn placed(chains: Chains) -> bool {
    forall|j: int, i: int|
        0 <= j < chains.len() && 0 <= i < chains[j].len() ==> bucket_of(
            #[trigger] chains[j][i],
            chains.len(),
        ) == j
}

/// The position of the first occurrence of `key` in `chain`, or -1 when it
/// does not occur.
pub open spec fn first_index(chain: Seq<Seq<char>>, key: Seq<char>) -> int
    decreases chain.len(),
{
    if chain.len() == 0 {
        -1
    } else {
        let p = first_index(chain.drop_last(), key);
        if p >= 0 {
            p
        } else if chain.last() == key {
            chain.len() - 1
        } else {
            -1
        }
    }
}

/// The text a dump gives for a natural number: its decimal digits.
pub open spec fn decimal(n: nat) -> Seq<char>
    decreases n,
{
    if n < 10 {
        seq![digit_char(n)]
    } else {
        decimal(n / 10) + seq![digit_char(n % 10)]
    }
}

pub open spec fn digit_char(d: nat) -> char {
    if d == 0 {
        '0'
    } else if d == 1 {
        '1'
    } else if d == 2 {
        '2'
    } else if d == 3 {
        '3'
    } else if d == 4 {
        '4'
    } else if d == 5 {
        '5'
    } else if d == 6 {
        '6'
    } else if d == 7 {
        '7'
    } else if d == 8 {
        '8'
    } else {
        '9'
    }
}

/// The keys of a chain, each followed by a space.
pub open spec fn chain_text(chain: Seq<Seq<char>>) -> Seq<char>
    decreases chain.len(),
{
    if chain.len() == 0 {
        Seq::empty()
    } else {
        chain_text(chain.drop_last()) + chain.last() + seq![' ']
    }
}

/// The dump line of bucket `index`: `index:key key \n`, or nothing for an
/// empty chain.
pub open spec fn bucket_line(index: nat, chain: Seq<Seq<char>>) -> Seq<char> {
    if chain.len() == 0 {
        Seq::empty()
    } else {
        decimal(index) + seq![':'] + chain_text(chain) + seq!['\n']
    }
}

/// The dump lines of the first `n` buckets, in bucket order.
pub open spec fn dump_upto(chains: Chains, n: nat) -> Seq<char>
    decreases n,
{
    if n == 0 || n > chains.len() {
        Seq::empty()
    } else {
        dump_upto(chains, (n - 1) as nat) + bucket_line((n - 1) as nat, chains[n - 1])
    }
}

/// What a table holds: its chains and its two load-factor thresholds, each a
/// fraction `num / den`.
pub struct TableView {
    pub chains: Chains,
    pub expand_num: nat,
    pub expand_den: nat,
    pub shrink_num: nat,
    pub shrink_den: nat,
}

impl TableView {
    /// A table of `capacity` empty buckets.
    pub open spec fn fresh(
        capacity: nat,
        expand_num: nat,
        expand_den: nat,
        shrink_num: nat,
        shrink_den: nat,
    ) -> TableView {
        TableView {
            chains: Seq::new(capacity, |j: int| Seq::<Seq<char>>::empty()),
            expand_num,
            expand_den,
            shrink_num,
            shrink_den,
        }
    }

    pub open spec fn capacity(self) -> nat {
        self.chains.len()
    }

    pub open spec fn contents(self) -> Multiset<Seq<char>> {
        keys_of(self.chains)
    }

    pub open spec fn count(self) -> nat {
        self.contents().len()
    }

    pub open spec fn contains(self, key: Seq<char>) -> bool {
        self.contents().count(key) > 0
    }

    /// Both denominators are positive, the expand threshold is at least 1,
    /// and the shrink threshold is at most half of it.
    pub open spec fn thresholds_valid(self) -> bool {
        &&& self.expand_den > 0
        &&& self.shrink_den > 0
        &&& self.expand_den <= self.expand_num
        &&& 2 * self.shrink_num * self.expand_den <= self.expand_num * self.shrink_den
    }

    /// `count / capacity` exceeds the expand threshold.
    pub open spec fn over_expand(self, count: nat, capacity: nat) -> bool {
        count * self.expand_den > capacity * self.expand_num
    }

    /// `count / capacity` is below the shrink threshold.
    pub open spec fn under_shrink(self, count: nat, capacity: nat) -> bool {
        count * self.shrink_den < capacity * self.shrink_num
    }

    pub open spec fn wf(self) -> bool {
        &&& self.thresholds_valid()
        &&& self.capacity() >= 1
        &&& is_pow2(self.capacity())
        &&& placed(self.chains)
        &&& !self.over_expand(self.count(), self.capacity())
    }

    pub open spec fn with_chains(self, chains: Chains) -> TableView {
        TableView { chains, ..self }
    }

    pub open spec fn bucket(self, key: Seq<char>) -> int {
        bucket_of(key, self.capacity()) as int
    }

    /// Every key redistributed over `capacity` buckets.
    pub open spec fn rehashed(self, capacity: nat) -> TableView {
        self.with_chains(spread(all_keys(self.chains), capacity))
    }

    /// `key` appended at the tail of its bucket's chain.
    pub open spec fn appended(self, key: Seq<char>) -> TableView {
        let b = self.bucket(key);
        self.with_chains(self.chains.update(b, self.chains[b].push(key)))
    }

    /// Insertion: append, then double the capacity if the load factor went
    /// over the expand threshold.
    pub open spec fn inserted(self, key: Seq<char>) -> TableView {
        let t = self.appended(key);
        if self.over_expand(t.count(), t.capacity()) {
            t.rehashed(2 * t.capacity())
        } else {
            t
        }
    }

    /// The first occurrence of `key` in its bucket's chain taken out, if any.
    pub open spec fn unlinked(self, key: Seq<char>) -> TableView {
        let b = self.bucket(key);
        let i = first_index(self.chains[b], key);
        if i >= 0 {
            self.with_chains(self.chains.update(b, self.chains[b].remove(i)))
        } else {
            self
        }
    }

    /// Deletion: unlink, then halve the capacity (never below 1) if the load
    /// factor is under the shrink threshold.
    pub open spec fn deleted(self, key: Seq<char>) -> TableView {
        let t = self.unlinked(key);
        if t.capacity() > 1 && self.under_shrink(t.count(), t.capacity()) {
            t.rehashed(t.capacity() / 2)
        } else {
            t
        }
    }

    /// The result of inserting `keys` one after the other.
    pub open spec fn insert_all(self, keys: Seq<Seq<char>>) -> TableView
        decreases keys.len(),
    {
        if keys.len() == 0 {
            self
        } else {
            self.insert_all(keys.drop_last()).inserted(keys.last())
        }
    }

    /// The diagnostic dump: one line per non-empty bucket, in bucket order.
    pub open spec fn dump(self) -> Seq<char> {
        dump_upto(self.chains, self.capacity())
    }
}

} // verus!
