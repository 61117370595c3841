//! The hash table: a vector of buckets, each a chain of keys kept in
//! insertion order, with a capacity that follows the load factor.
use vstd::prelude::*;
use vstd::string::*;
use crate::hashing::bucket_index;
use crate::lemmas::{
    lemma_appended, lemma_deleted, lemma_first_index_absent, lemma_first_index_at,
    lemma_first_index_cases, lemma_found_in_bucket, lemma_inserted, lemma_keys_of_empty,
    lemma_pow2_half, lemma_rehashed, lemma_spread_push, lemma_unlinked,
};
use crate::model::{
    all_keys, chain_text, decimal, dump_upto, first_index, is_pow2, placed, spread, TableView,
};
use crate::text::push_decimal;

verus! {

/// A key to store or look up: a piece of text. An entry always holds a key;
/// there is no empty key.
pub struct Node {
    key: String,
}

impl View for Node {
    type V = Seq<char>;

    closed spec fn view(&self) -> Seq<char> {
        self.key@
    }
}

impl Node {
    pub fn new(key: String) -> (r: Node)
        ensures
            r@ == key@,
    {
        Node { key }
    }

    pub fn key(&self) -> (r: &str)
        ensures
            r@ == self@,
    {
        self.key.as_str()
    }
}

/// Where a search found a key: its bucket and its position in that bucket's
/// chain.
pub struct EntryHandle {
    pub bucket: usize,
    pub position: usize,
}

/// A hash table of text keys with separate chaining. The capacity starts as a
/// power of two, doubles when `count / capacity` exceeds the expand threshold
/// after an insertion, and halves (never below 1) when it falls under the
/// shrink threshold after a deletion. Duplicate keys are kept as separate
/// entries. Each bucket is a vector of keys in chain order; a bucket that no
/// key has reached is an empty vector.
pub struct HashChainNode {
    expand_num: u64,
    expand_den: u64,
    shrink_num: u64,
    shrink_den: u64,
    size: usize,
    count: usize,
    table: Vec<Vec<String>>,
}

impl View for HashChainNode {
    type V = TableView;

    closed spec fn view(&self) -> TableView {
        TableView {
            chains: self.table.deep_view(),
            expand_num: self.expand_num as nat,
            expand_den: self.expand_den as nat,
            shrink_num: self.shrink_num as nat,
            shrink_den: self.shrink_den as nat,
        }
    }
}

/// `a * b` for factors that fit in 64 bits.
fn mul_wide(a: u128, b: u128) -> (r: u128)
    requires
        a <= u64::MAX,
        b <= u64::MAX,
    ensures
        r == a * b,
{
    assert(a * b <= u64::MAX * u64::MAX) by (nonlinear_arith)
        requires
            a <= u64::MAX,
            b <= u64::MAX,
    ;
    a * b
}

/// A vector of `capacity` empty buckets.
fn empty_buckets(capacity: usize) -> (r: Vec<Vec<String>>)
    ensures
        r.deep_view() =~~= Seq::new(capacity as nat, |j: int| Seq::<Seq<char>>::empty()),
{
    let mut r: Vec<Vec<String>> = Vec::new();
    let mut j: usize = 0;
    while j < capacity
        invariant
            j <= capacity,
            r@.len() == j,
            forall|i: int| 0 <= i < j ==> (#[trigger] r@[i])@.len() == 0,
        decreases capacity - j,
    {
        r.push(Vec::new());
        j = j + 1;
    }
    assert forall|i: int| 0 <= i < capacity implies #[trigger] r.deep_view()[i]
        =~= Seq::<Seq<char>>::empty() by {
        assert(r@[i]@.len() == 0);
    }
    r
}

/// Appends `key` at the tail of the chain of bucket `index`.
fn insert_table(table: &mut Vec<Vec<String>>, index: usize, key: String)
    requires
        index < old(table)@.len(),
    ensures
        final(table).deep_view() =~~= old(table).deep_view().update(
            index as int,
            old(table).deep_view()[index as int].push(key@),
        ),
{
    table[index].push(key);
}

/// The position of the first entry of `chain` equal to `key`, if any.
fn find_in_chain(chain: &Vec<String>, key: &String) -> (r: Option<usize>)
    ensures
        match r {
            Some(i) => i as int == first_index(chain.deep_view(), key@),
            None => first_index(chain.deep_view(), key@) == -1,
        },
{
    let mut i: usize = 0;
    while i < chain.len()
        invariant
            i <= chain@.len(),
            forall|j: int| 0 <= j < i ==> chain.deep_view()[j] != key@,
        decreases chain@.len() - i,
    {
        if chain[i] == *key {
            proof {
                lemma_first_index_at(chain.deep_view(), key@, i as int);
            }
            return Some(i);
        }
        i = i + 1;
    }
    proof {
        lemma_first_index_absent(chain.deep_view(), key@);
    }
    None
}

impl HashChainNode {
    /// The table's state is well formed and its fields agree with its view.
    pub closed spec fn wf(&self) -> bool {
        &&& self@.wf()
        &&& self.size == self.table@.len()
        &&& self.count == self@.count()
    }

    /// An empty table of capacity 1 with expand threshold 5/4 and shrink
    /// threshold 1/2.
    pub fn new() -> (r: HashChainNode)
        ensures
            r.wf(),
            r@ == TableView::fresh(1, 5, 4, 1, 2),
            r@.count() == 0,
    {
        HashChainNode::with_thresholds(1, 5, 4, 1, 2)
    }

    /// An empty table of `initial_capacity` buckets whose expand threshold is
    /// `expand_num / expand_den` and shrink threshold `shrink_num / shrink_den`.
    pub fn with_thresholds(
        initial_capacity: usize,
        expand_num: u64,
        expand_den: u64,
        shrink_num: u64,
        shrink_den: u64,
    ) -> (r: HashChainNode)
        requires
            is_pow2(initial_capacity as nat),
            TableView::fresh(
                initial_capacity as nat,
                expand_num as nat,
                expand_den as nat,
                shrink_num as nat,
                shrink_den as nat,
            ).thresholds_valid(),
        ensures
            r.wf(),
            r@ == TableView::fresh(
                initial_capacity as nat,
                expand_num as nat,
                expand_den as nat,
                shrink_num as nat,
                shrink_den as nat,
            ),
            r@.count() == 0,
    {
        let table = empty_buckets(initial_capacity);
        let r = HashChainNode {
            expand_num,
            expand_den,
            shrink_num,
            shrink_den,
            size: initial_capacity,
            count: 0,
            table,
        };
        proof {
            lemma_keys_of_empty(r@.chains);
            assert(r@.count() == 0);
            assert(placed(r@.chains));
            assert(r@ =~~= TableView::fresh(
                initial_capacity as nat,
                expand_num as nat,
                expand_den as nat,
                shrink_num as nat,
                shrink_den as nat,
            ));
        }
        r
    }

    /// The number of buckets.
    pub fn capacity(&self) -> (r: usize)
        requires
            self.wf(),
        ensures
            r == self@.capacity(),
    {
        self.size
    }

    /// The number of entries, duplicates included.
    pub fn len(&self) -> (r: usize)
        requires
            self.wf(),
        ensures
            r == self@.count(),
    {
        self.count
    }

    /// Whether `count / capacity` exceeds the expand threshold.
    fn over_expand(&self, count: usize, capacity: usize) -> (r: bool)
        ensures
            r == self@.over_expand(count as nat, capacity as nat),
    {
        mul_wide(count as u128, self.expand_den as u128) > mul_wide(
            capacity as u128,
            self.expand_num as u128,
        )
    }

    /// Whether `count / capacity` is under the shrink threshold.
    fn under_shrink(&self, count: usize, capacity: usize) -> (r: bool)
        ensures
            r == self@.under_shrink(count as nat, capacity as nat),
    {
        mul_wide(count as u128, self.shrink_den as u128) < mul_wide(
            capacity as u128,
            self.shrink_num as u128,
        )
    }

    /// Every key of the table, redistributed over `capacity` fresh buckets in
    /// bucket order and chain order.
    fn rehash(&self, capacity: usize) -> (r: Vec<Vec<String>>)
        requires
            capacity > 0,
            self.size == self.table@.len(),
        ensures
            r.deep_view() =~~= spread(all_keys(self@.chains), capacity as nat),
    {
        let ghost chains = self@.chains;
        let mut r = empty_buckets(capacity);
        proof {
            reveal(Seq::filter);
            assert(all_keys(chains.take(0)) =~= Seq::<Seq<char>>::empty());
            assert(r.deep_view() =~~= spread(all_keys(chains.take(0)), capacity as nat));
        }
        let mut j: usize = 0;
        while j < self.size
            invariant
                j <= self.size == self.table@.len() == chains.len(),
                chains == self@.chains,
                capacity > 0,
                r.deep_view() =~~= spread(all_keys(chains.take(j as int)), capacity as nat),
            decreases self.size - j,
        {
            let ghost done = all_keys(chains.take(j as int));
            let chain = &self.table[j];
            let mut i: usize = 0;
            assert(done + chains[j as int].take(0) =~= done);
            while i < chain.len()
                invariant
                    i <= chain@.len(),
                    chain.deep_view() == chains[j as int],
                    capacity > 0,
                    r.deep_view() =~~= spread(done + chains[j as int].take(i as int), capacity as nat),
                decreases chain@.len() - i,
            {
                let key = chain[i].clone();
                let index = bucket_index(key.as_str(), capacity);
                proof {
                    let before = done + chains[j as int].take(i as int);
                    assert(done + chains[j as int].take(i + 1) =~= before.push(key@));
                    lemma_spread_push(before, key@, capacity as nat);
                }
                insert_table(&mut r, index, key);
                i = i + 1;
            }
            proof {
                assert(chains[j as int].take(i as int) =~= chains[j as int]);
                assert(chains.take(j + 1).drop_last() =~= chains.take(j as int));
            }
            j = j + 1;
        }
        proof {
            assert(chains.take(j as int) =~= chains);
        }
        r
    }

    /// Doubles the capacity and rehashes when the load factor is over the
    /// expand threshold.
    fn table_doubling(&mut self)
        requires
            old(self).size == old(self).table@.len(),
            old(self).size >= 1,
            old(self).count <= usize::MAX / 2,
            old(self)@.thresholds_valid(),
        ensures
            final(self)@ == (if old(self)@.over_expand(old(self).count as nat, old(self).size as nat) {
                old(self)@.rehashed(2 * old(self).size as nat)
            } else {
                old(self)@
            }),
            final(self).size == final(self).table@.len(),
            final(self).count == old(self).count,
    {
        if !self.over_expand(self.count, self.size) {
            return;
        }
        proof {
            let (c, s, en, ed) = (self.count as nat, self.size as nat, self.expand_num as nat, self.expand_den as nat);
            assert(c > s) by (nonlinear_arith)
                requires
                    c * ed > s * en,
                    ed <= en,
            ;
        }
        let size = self.size * 2;
        let table = self.rehash(size);
        self.table = table;
        self.size = size;
        proof {
            assert(self@ =~~= old(self)@.rehashed(size as nat));
        }
    }

    /// Halves the capacity and rehashes when the capacity is over 1 and the
    /// load factor is under the shrink threshold.
    fn table_shrinking(&mut self)
        requires
            old(self).size == old(self).table@.len(),
            old(self).size >= 1,
        ensures
            final(self)@ == (if old(self).size > 1 && old(self)@.under_shrink(
                old(self).count as nat,
                old(self).size as nat,
            ) {
                old(self)@.rehashed(old(self).size as nat / 2)
            } else {
                old(self)@
            }),
            final(self).size == final(self).table@.len(),
            final(self).count == old(self).count,
    {
        if self.size <= 1 || !self.under_shrink(self.count, self.size) {
            return;
        }
        let size = self.size / 2;
        let table = self.rehash(size);
        self.table = table;
        self.size = size;
        proof {
            assert(self@ =~~= old(self)@.rehashed(size as nat));
        }
    }

    /// Appends `node`'s key at the tail of its bucket's chain, then doubles
    /// the capacity if the load factor went over the expand threshold. The
    /// count must be under half of `usize::MAX`, so that the doubled capacity
    /// fits.
    pub fn insert(&mut self, node: Node)
        requires
            old(self).wf(),
            old(self)@.count() < usize::MAX / 2,
        ensures
            final(self).wf(),
            final(self)@ == old(self)@.inserted(node@),
            final(self)@.contents() == old(self)@.contents().insert(node@),
            final(self)@.count() == old(self)@.count() + 1,
            !final(self)@.over_expand(final(self)@.count(), final(self)@.capacity()),
    {
        let ghost key = node@;
        let index = bucket_index(node.key.as_str(), self.size);
        insert_table(&mut self.table, index, node.key);
        proof {
            lemma_appended(old(self)@, key);
            assert(self@ =~~= old(self)@.appended(key));
        }
        self.count = self.count + 1;
        self.table_doubling();
        proof {
            lemma_inserted(old(self)@, key);
            if old(self)@.over_expand(old(self)@.appended(key).count(), old(self)@.capacity()) {
                lemma_rehashed(old(self)@.appended(key), 2 * old(self)@.capacity());
            }
        }
    }

    /// Unlinks the first entry equal to `node`'s key from its bucket's chain,
    /// if there is one, then halves the capacity (never below 1) if the load
    /// factor is under the shrink threshold. The count drops only when an
    /// entry was removed.
    pub fn delete(&mut self, node: &Node)
        requires
            old(self).wf(),
        ensures
            final(self).wf(),
            final(self)@ == old(self)@.deleted(node@),
            final(self)@.contents() == old(self)@.contents().remove(node@),
            final(self)@.count() == if old(self)@.contains(node@) {
                old(self)@.count() - 1
            } else {
                old(self)@.count() as int
            },
    {
        let ghost key = node@;
        let index = bucket_index(node.key.as_str(), self.size);
        let found = find_in_chain(&self.table[index], &node.key);
        proof {
            lemma_unlinked(old(self)@, key);
            lemma_found_in_bucket(old(self)@, key);
            lemma_first_index_cases(old(self)@.chains[index as int], key);
        }
        match found {
            Some(i) => {
                self.table[index].remove(i);
                proof {
                    let c = old(self)@.chains[index as int];
                    assert(self.table@[index as int].deep_view() =~= c.remove(i as int));
                    assert(self@.chains =~= old(self)@.chains.update(index as int, c.remove(i as int)));
                    assert(i as int == first_index(c, key));
                    assert(self@ =~~= old(self)@.unlinked(key));
                }
                self.count = self.count - 1;
            },
            None => {
                assert(old(self)@.contents().remove(key) =~= old(self)@.contents());
            },
        }
        self.table_shrinking();
        proof {
            lemma_deleted(old(self)@, key);
            let u = old(self)@.unlinked(key);
            if u.capacity() > 1 && u.under_shrink(u.count(), u.capacity()) {
                lemma_pow2_half(u.capacity());
                lemma_rehashed(u, u.capacity() / 2);
            }
        }
    }

    /// Finds the first entry equal to `node`'s key in its bucket's chain.
    pub fn search(&self, node: &Node) -> (r: Option<EntryHandle>)
        requires
            self.wf(),
        ensures
            r is Some <==> self@.contains(node@),
            match r {
                Some(h) => h.bucket == self@.bucket(node@) && h.position == first_index(
                    self@.chains[h.bucket as int],
                    node@,
                ),
                None => true,
            },
    {
        let index = bucket_index(node.key.as_str(), self.size);
        let found = find_in_chain(&self.table[index], &node.key);
        proof {
            lemma_found_in_bucket(self@, node@);
            lemma_first_index_cases(self@.chains[index as int], node@);
        }
        match found {
            Some(i) => Some(EntryHandle { bucket: index, position: i }),
            None => None,
        }
    }

    /// The diagnostic dump: for each non-empty bucket in index order, a line
    /// `index:` followed by each key of its chain and a space.
    pub fn to_display_string(&self) -> (r: String)
        requires
            self.wf(),
        ensures
            r@ == self@.dump(),
    {
        let ghost chains = self@.chains;
        let mut out = String::new();
        let mut j: usize = 0;
        proof {
            reveal_strlit(":");
            reveal_strlit(" ");
            reveal_strlit("\n");
        }
        while j < self.size
            invariant
                j <= self.size == self.table@.len() == chains.len(),
                chains == self@.chains,
                out@ == dump_upto(chains, j as nat),
                ":"@ == seq![':'],
                " "@ == seq![' '],
                "\n"@ == seq!['\n'],
            decreases self.size - j,
        {
            let chain = &self.table[j];
            let ghost c = chains[j as int];
            if chain.len() > 0 {
                let ghost head = out@ + decimal(j as nat) + seq![':'];
                push_decimal(&mut out, j);
                out.append(":");
                let mut i: usize = 0;
                assert(c.take(0) =~= Seq::<Seq<char>>::empty());
                assert(out@ =~= head + chain_text(c.take(0)));
                while i < chain.len()
                    invariant
                        i <= chain@.len(),
                        chain.deep_view() == c,
                        out@ == head + chain_text(c.take(i as int)),
                        " "@ == seq![' '],
                    decreases chain@.len() - i,
                {
                    out.append(chain[i].as_str());
                    out.append(" ");
                    assert(c.take(i + 1).drop_last() =~= c.take(i as int));
                    assert(out@ =~= head + chain_text(c.take(i + 1)));
                    i = i + 1;
                }
                out.append("\n");
                assert(c.take(i as int) =~= c);
            }
            assert(out@ =~= dump_upto(chains, (j + 1) as nat));
            j = j + 1;
        }
        out
    }
}

impl Default for HashChainNode {
    /// The same table as `HashChainNode::new`.
    fn default() -> (r: HashChainNode)
        ensures
            r.wf(),
            r@ == TableView::fresh(1, 5, 4, 1, 2),
            r@.count() == 0,
    {
        HashChainNode::new()
    }
}

} // verus!
