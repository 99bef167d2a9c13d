//! A buffer of items, each released once its key has been reached.
use vstd::prelude::*;

verus! {

/// An item held by a [`ReadyBuffer`], with the key at which it becomes ready.
pub struct ItemWithReadyKey<T> {
    pub key: u64,
    pub item: T,
}

/// Keys never decrease along `s`.
pub open spec fn sorted_by_key<T>(s: Seq<ItemWithReadyKey<T>>) -> bool {
    forall|i: int, j: int| 0 <= i <= j < s.len() ==> s[i].key <= s[j].key
}

/// Holds of an item that is ready at `k`.
pub open spec fn ready_at<T>(k: u64) -> spec_fn(ItemWithReadyKey<T>) -> bool {
    |x: ItemWithReadyKey<T>| x.key <= k
}

/// Holds of an item that is not yet ready at `k`.
pub open spec fn pending_at<T>(k: u64) -> spec_fn(ItemWithReadyKey<T>) -> bool {
    |x: ItemWithReadyKey<T>| x.key > k
}

/// Holds of an item whose key is `k` or later.
pub open spec fn key_from<T>(k: u64) -> spec_fn(ItemWithReadyKey<T>) -> bool {
    |x: ItemWithReadyKey<T>| x.key >= k
}

/// Holds of an item whose key is earlier than `k`.
pub open spec fn key_before<T>(k: u64) -> spec_fn(ItemWithReadyKey<T>) -> bool {
    |x: ItemWithReadyKey<T>| x.key < k
}

/// The items of `s` as (key, item) pairs, in the same order.
pub open spec fn as_pairs<T>(s: Seq<ItemWithReadyKey<T>>) -> Seq<(u64, T)> {
    s.map_values(|x: ItemWithReadyKey<T>| (x.key, x.item))
}

/// The smallest key of `s` is at most `k`.
pub open spec fn has_ready<T>(s: Seq<ItemWithReadyKey<T>>, k: u64) -> bool {
    s.len() > 0 && s[0].key <= k
}

/// What `pop_item(k)` returns on contents `s`.
pub open spec fn pop_item_result<T>(s: Seq<ItemWithReadyKey<T>>, k: u64) -> Option<(u64, T)> {
    if has_ready(s, k) {
        Some((s[0].key, s[0].item))
    } else {
        None
    }
}

/// The contents left by `pop_item(k)` on contents `s`.
pub open spec fn after_pop_item<T>(s: Seq<ItemWithReadyKey<T>>, k: u64) -> Seq<ItemWithReadyKey<T>> {
    if has_ready(s, k) {
        s.drop_first()
    } else {
        s
    }
}

/// A time-keyed release queue: items come out by ascending key, and only once
/// their key is at most the key asked with.
///
/// Items with equal keys come out in the order in which they were pushed.
pub struct ReadyBuffer<T> {
    items: Vec<ItemWithReadyKey<T>>,
}

impl<T> View for ReadyBuffer<T> {
    type V = Seq<ItemWithReadyKey<T>>;

    /// The pending items, by ascending key.
    closed spec fn view(&self) -> Seq<ItemWithReadyKey<T>> {
        self.items@
    }
}

/// With all of `s` meeting `p`, filtering by `p` keeps `s`.
proof fn lemma_filter_keeps_all<A>(s: Seq<A>, p: spec_fn(A) -> bool)
    requires
        forall|i: int| 0 <= i < s.len() ==> p(s[i]),
    ensures
        s.filter(p) == s,
    decreases s.len(),
{
    reveal(Seq::filter);
    if s.len() > 0 {
        lemma_filter_keeps_all(s.drop_last(), p);
        assert(s.drop_last().push(s.last()) =~= s);
    }
}

/// With none of `s` meeting `p`, filtering by `p` leaves nothing.
pub(crate) proof fn lemma_filter_drops_all<A>(s: Seq<A>, p: spec_fn(A) -> bool)
    requires
        forall|i: int| 0 <= i < s.len() ==> !p(s[i]),
    ensures
        s.filter(p) == Seq::<A>::empty(),
    decreases s.len(),
{
    reveal(Seq::filter);
    if s.len() > 0 {
        lemma_filter_drops_all(s.drop_last(), p);
    }
}

/// Where `p` holds exactly on the first `m` items of `s`, filtering by `p`
/// gives that prefix and filtering by `q`, its complement, the rest.
proof fn lemma_filter_split<A>(s: Seq<A>, m: int, p: spec_fn(A) -> bool, q: spec_fn(A) -> bool)
    requires
        0 <= m <= s.len(),
        forall|i: int| 0 <= i < m ==> p(s[i]) && !q(s[i]),
        forall|i: int| m <= i < s.len() ==> !p(s[i]) && q(s[i]),
    ensures
        s.filter(p) == s.subrange(0, m),
        s.filter(q) == s.subrange(m, s.len() as int),
{
    let a = s.subrange(0, m);
    let b = s.subrange(m, s.len() as int);
    assert(s =~= a + b);
    Seq::filter_distributes_over_add(a, b, p);
    Seq::filter_distributes_over_add(a, b, q);
    lemma_filter_keeps_all(a, p);
    lemma_filter_drops_all(b, p);
    lemma_filter_drops_all(a, q);
    lemma_filter_keeps_all(b, q);
    assert(a + Seq::<A>::empty() =~= a);
    assert(Seq::<A>::empty() + b =~= b);
}

/// Popping removes the item with the smallest key: whatever stays pending,
/// and whatever is pushed afterwards with a key no smaller than the popped one,
/// comes out of a later `pop_item` with a key no smaller than it; and each
/// pop stays within its threshold.
pub proof fn lemma_pops_in_key_order<T>(
    s: Seq<ItemWithReadyKey<T>>,
    t1: u64,
    pushed: Seq<ItemWithReadyKey<T>>,
    s2: Seq<ItemWithReadyKey<T>>,
    t2: u64,
)
    requires
        sorted_by_key(s),
        t1 <= t2,
        pop_item_result(s, t1).is_some(),
        forall|i: int|
            0 <= i < pushed.len() ==> pushed[i].key >= pop_item_result(s, t1).unwrap().0,
        forall|j: int|
            0 <= j < s2.len() ==> after_pop_item(s, t1).contains(s2[j]) || pushed.contains(
                s2[j],
            ),
    ensures
        pop_item_result(s, t1).unwrap().0 <= t1,
        pop_item_result(s2, t2) matches Some(b) ==> b.0 <= t2 && pop_item_result(
            s,
            t1,
        ).unwrap().0 <= b.0,
{
    if s2.len() > 0 {
        let x = s2[0];
        if after_pop_item(s, t1).contains(x) {
            let j = choose|j: int| 0 <= j < s.drop_first().len() && s.drop_first()[j] == x;
            assert(s[j + 1] == x);
        } else {
            let j = choose|j: int| 0 <= j < pushed.len() && pushed[j] == x;
        }
    }
}

/// A pop hands out the item with the smallest key, only at a threshold no
/// earlier than its key, and takes exactly that one item away.
pub proof fn lemma_pop_hands_out_once<T>(s: Seq<ItemWithReadyKey<T>>, t: u64)
    requires
        sorted_by_key(s),
        pop_item_result(s, t).is_some(),
    ensures
        s[0].key <= t,
        forall|i: int| 0 <= i < s.len() ==> s[0].key <= #[trigger] s[i].key,
        s.to_multiset() == after_pop_item(s, t).to_multiset().insert(s[0]),
{
    broadcast use vstd::seq_lib::group_to_multiset_ensures;

    let d = s.drop_first();
    assert(s =~= seq![s[0]] + d);
    vstd::seq_lib::lemma_multiset_commutative(seq![s[0]], d);
    assert(seq![s[0]] =~= Seq::<ItemWithReadyKey<T>>::empty().push(s[0]));
    assert(s.to_multiset() =~= d.to_multiset().insert(s[0]));
}

/// Once the threshold reaches every key, `drain_until` hands out every item,
/// each once and by ascending key, and nothing stays.
pub proof fn lemma_drain_until_releases_all<T>(s: Seq<ItemWithReadyKey<T>>, t: u64)
    requires
        sorted_by_key(s),
        forall|i: int| 0 <= i < s.len() ==> #[trigger] s[i].key <= t,
    ensures
        s.filter(ready_at(t)) == s,
        s.filter(pending_at(t)) == Seq::<ItemWithReadyKey<T>>::empty(),
{
    lemma_filter_split(s, s.len() as int, ready_at(t), pending_at(t));
    assert(s.subrange(0, s.len() as int) =~= s);
    assert(s.subrange(s.len() as int, s.len() as int) =~= Seq::<ItemWithReadyKey<T>>::empty());
}

/// Filtering a sequence sorted by key keeps it sorted.
proof fn lemma_filter_sorted<T>(s: Seq<ItemWithReadyKey<T>>, p: spec_fn(ItemWithReadyKey<T>) -> bool)
    requires
        sorted_by_key(s),
    ensures
        sorted_by_key(s.filter(p)),
        forall|j: int| 0 <= j < s.filter(p).len() ==> s.contains(#[trigger] s.filter(p)[j]),
    decreases s.len(),
{
    reveal(Seq::filter);
    if s.len() > 0 {
        let d = s.drop_last();
        lemma_filter_sorted(d, p);
        let f = d.filter(p);
        assert forall|j: int| 0 <= j < f.len() implies #[trigger] f[j].key <= s.last().key by {
            let i = choose|i: int| 0 <= i < d.len() && d[i] == f[j];
            assert(s[i] == d[i]);
        }
        assert forall|j: int| 0 <= j < s.filter(p).len() implies s.contains(
            #[trigger] s.filter(p)[j],
        ) by {
            if j < f.len() {
                let i = choose|i: int| 0 <= i < d.len() && d[i] == f[j];
                assert(s[i] == d[i]);
            } else {
                assert(s[s.len() - 1] == s.last());
            }
        }
    }
}

/// Filtering by a predicate and by its complement splits the multiset of `s`.
proof fn lemma_filter_partition<A>(s: Seq<A>, p: spec_fn(A) -> bool, q: spec_fn(A) -> bool)
    requires
        forall|x: A| #[trigger] p(x) == !q(x),
    ensures
        s.to_multiset() == s.filter(p).to_multiset().add(s.filter(q).to_multiset()),
    decreases s.len(),
{
    broadcast use vstd::seq_lib::group_to_multiset_ensures;

    reveal(Seq::filter);
    if s.len() == 0 {
        assert(s.to_multiset() =~= s.filter(p).to_multiset().add(s.filter(q).to_multiset()));
    } else {
        let d = s.drop_last();
        lemma_filter_partition(d, p, q);
        assert(d.push(s.last()) =~= s);
        assert(s.to_multiset() =~= s.filter(p).to_multiset().add(s.filter(q).to_multiset()));
    }
}

/// `drain_until(k)` hands out exactly the items with a key at most `k`, by
/// ascending key, and leaves exactly the others.
pub proof fn lemma_drain_until_exact<T>(s: Seq<ItemWithReadyKey<T>>, k: u64)
    requires
        sorted_by_key(s),
    ensures
        sorted_by_key(s.filter(ready_at(k))),
        forall|j: int| 0 <= j < s.filter(ready_at(k)).len() ==> #[trigger] s.filter(ready_at(k))[j].key <= k,
        forall|i: int| 0 <= i < s.len() && s[i].key <= k ==> s.filter(ready_at(k)).contains(#[trigger] s[i]),
        forall|j: int| 0 <= j < s.filter(pending_at(k)).len() ==> #[trigger] s.filter(pending_at(k))[j].key > k,
        s.to_multiset() == s.filter(ready_at(k)).to_multiset().add(s.filter(pending_at(k)).to_multiset()),
{
    broadcast use vstd::seq_lib::group_filter_ensures;

    lemma_filter_sorted(s, ready_at(k));
    assert forall|x: ItemWithReadyKey<T>| #[trigger] ready_at::<T>(k)(x) == !pending_at::<T>(k)(x) by {}
    lemma_filter_partition(s, ready_at(k), pending_at(k));
    assert forall|i: int| 0 <= i < s.len() && s[i].key <= k implies s.filter(ready_at(k)).contains(#[trigger] s[i]) by {
        s.lemma_filter_contains(ready_at(k), i);
    }
}

/// `drain_after(k)` and what stays pending together hold exactly the items
/// that were pending:
/// what is handed out is exactly the items with a key `k` or later, and what
/// stays is exactly the items with an earlier key.
pub proof fn lemma_drain_after_partition<T>(s: Seq<ItemWithReadyKey<T>>, k: u64)
    requires
        sorted_by_key(s),
    ensures
        s.to_multiset() == s.filter(key_from(k)).to_multiset().add(s.filter(key_before(k)).to_multiset()),
        forall|j: int| 0 <= j < s.filter(key_from(k)).len() ==> #[trigger] s.filter(key_from(k))[j].key >= k,
        forall|j: int| 0 <= j < s.filter(key_before(k)).len() ==> #[trigger] s.filter(key_before(k))[j].key < k,
        forall|i: int| 0 <= i < s.len() && s[i].key >= k ==> s.filter(key_from(k)).contains(#[trigger] s[i]),
        forall|i: int| 0 <= i < s.len() && s[i].key < k ==> s.filter(key_before(k)).contains(#[trigger] s[i]),
{
    broadcast use vstd::seq_lib::group_filter_ensures;

    assert forall|x: ItemWithReadyKey<T>| #[trigger] key_from::<T>(k)(x) == !key_before::<T>(k)(x) by {}
    lemma_filter_partition(s, key_from(k), key_before(k));
    assert forall|i: int| 0 <= i < s.len() && s[i].key >= k implies s.filter(key_from(k)).contains(#[trigger] s[i]) by {
        s.lemma_filter_contains(key_from(k), i);
    }
    assert forall|i: int| 0 <= i < s.len() && s[i].key < k implies s.filter(key_before(k)).contains(#[trigger] s[i]) by {
        s.lemma_filter_contains(key_before(k), i);
    }
}

impl<T> ReadyBuffer<T> {
    /// The items are kept by ascending key.
    pub open spec fn wf(&self) -> bool {
        sorted_by_key(self@)
    }

    /// An empty buffer.
    pub fn new() -> (r: Self)
        ensures
            r.wf(),
            r@ == Seq::<ItemWithReadyKey<T>>::empty(),
    {
        ReadyBuffer { items: Vec::new() }
    }

    /// Adds `item`, to become ready at `key`.
    ///
    /// It goes after every pending item with a key at most `key`, and before
    /// every other.
    pub fn push(&mut self, key: u64, item: T)
        requires
            old(self).wf(),
        ensures
            final(self).wf(),
            exists|i: int|
                0 <= i <= old(self)@.len() && final(self)@ == old(self)@.insert(
                    i,
                    (ItemWithReadyKey { key, item }),
                ) && (forall|j: int| 0 <= j < i ==> (#[trigger] old(self)@[j]).key <= key) && (
                forall|j: int| i <= j < old(self)@.len() ==> (#[trigger] old(self)@[j]).key > key),
            final(self)@ == old(self)@.insert(
                old(self)@.filter(ready_at(key)).len() as int,
                (ItemWithReadyKey { key, item }),
            ),
    {
        let mut i: usize = 0;
        while i < self.items.len() && self.items[i].key <= key
            invariant
                self.items@ == old(self).items@,
                sorted_by_key(self.items@),
                0 <= i <= self.items@.len(),
                forall|j: int| 0 <= j < i ==> self.items@[j].key <= key,
            decreases self.items@.len() - i,
        {
            i = i + 1;
        }
        let ghost before = self.items@;
        self.items.insert(i, ItemWithReadyKey { key, item });
        assert(sorted_by_key(self.items@)) by {
            assert forall|a: int, b: int| 0 <= a <= b < self.items@.len() implies self.items@[a].key
                <= self.items@[b].key by {
                if a < i as int && b > i as int {
                    assert(before[a].key <= key);
                    assert(key < before[i as int].key);
                    assert(before[i as int].key <= before[b - 1].key);
                }
            }
        }
        assert(forall|j: int| i <= j < old(self)@.len() ==> (#[trigger] old(self)@[j]).key > key) by {
            assert forall|j: int| i <= j < old(self)@.len() implies (#[trigger] old(self)@[j]).key
                > key by {
                assert(before[i as int].key <= before[j].key);
            }
        }
        proof {
            lemma_filter_split(old(self)@, i as int, ready_at(key), pending_at(key));
        }
        assert(0 <= i <= old(self)@.len() && self@ == old(self)@.insert(
            i as int,
            (ItemWithReadyKey { key, item }),
        ));
    }

    /// The pending item with the smallest key, without removing it.
    pub fn peek_max_item(&self) -> (r: Option<(u64, &T)>)
        ensures
            self@.len() == 0 ==> r.is_none(),
            self@.len() > 0 ==> r == Some((self@[0].key, &self@[0].item)),
    {
        if self.items.len() == 0 {
            None
        } else {
            Some((self.items[0].key, &self.items[0].item))
        }
    }

    /// Whether the pending item with the smallest key is ready at `current_key`.
    pub fn has_item(&self, current_key: &u64) -> (r: bool)
        ensures
            r == has_ready(self@, *current_key),
    {
        self.items.len() > 0 && self.items[0].key <= *current_key
    }

    /// The item that `pop_item(current_key)` would return, without removing it.
    pub fn peek_item(&self, current_key: &u64) -> (r: Option<(u64, &T)>)
        ensures
            !has_ready(self@, *current_key) ==> r.is_none(),
            has_ready(self@, *current_key) ==> r == Some((self@[0].key, &self@[0].item)),
    {
        if self.has_item(current_key) {
            Some((self.items[0].key, &self.items[0].item))
        } else {
            None
        }
    }

    /// Removes and returns the pending item with the smallest key, where that
    /// key is at most `current_key`.
    pub fn pop_item(&mut self, current_key: &u64) -> (r: Option<(u64, T)>)
        requires
            old(self).wf(),
        ensures
            final(self).wf(),
            r == pop_item_result(old(self)@, *current_key),
            final(self)@ == after_pop_item(old(self)@, *current_key),
            r matches Some(p) ==> p.0 <= *current_key,
    {
        if self.has_item(current_key) {
            let c = self.items.remove(0);
            assert(self.items@ =~= old(self)@.drop_first());
            Some((c.key, c.item))
        } else {
            None
        }
    }

    /// Removes every item ready at `key` and returns the last one removed,
    /// the one with the largest such key.
    pub fn pop_until(&mut self, key: &u64) -> (r: Option<(u64, T)>)
        requires
            old(self).wf(),
        ensures
            final(self).wf(),
            final(self)@ == old(self)@.filter(pending_at(*key)),
            old(self)@.filter(ready_at(*key)).len() == 0 ==> r.is_none(),
            old(self)@.filter(ready_at(*key)).len() > 0 ==> r == Some(
                (
                    old(self)@.filter(ready_at(*key)).last().key,
                    old(self)@.filter(ready_at(*key)).last().item,
                ),
            ),
    {
        let mut val: Option<(u64, T)> = None;
        let ghost n: int = 0;
        while self.items.len() > 0 && self.items[0].key <= *key
            invariant
                0 <= n <= old(self)@.len(),
                self.items@ == old(self)@.subrange(n, old(self)@.len() as int),
                forall|j: int| 0 <= j < n ==> old(self)@[j].key <= *key,
                sorted_by_key(old(self)@),
                n == 0 ==> val.is_none(),
                n > 0 ==> val == Some((old(self)@[n - 1].key, old(self)@[n - 1].item)),
            decreases self.items@.len(),
        {
            let c = self.items.remove(0);
            val = Some((c.key, c.item));
            proof {
                n = n + 1;
            }
        }
        proof {
            let s = old(self)@;
            lemma_filter_split(s, n, ready_at(*key), pending_at(*key));
            assert forall|a: int, b: int|
                0 <= a <= b < self.items@.len() implies self.items@[a].key
                <= self.items@[b].key by {
                assert(self.items@[a] == s[n + a]);
                assert(self.items@[b] == s[n + b]);
            }
        }
        val
    }

    /// Removes every item ready at `key` and returns them all, by ascending
    /// key.
    pub fn drain_until(&mut self, key: &u64) -> (r: Vec<(u64, T)>)
        requires
            old(self).wf(),
        ensures
            final(self).wf(),
            r@ == as_pairs(old(self)@.filter(ready_at(*key))),
            final(self)@ == old(self)@.filter(pending_at(*key)),
    {
        let mut val: Vec<(u64, T)> = Vec::new();
        let ghost n: int = 0;
        while self.items.len() > 0 && self.items[0].key <= *key
            invariant
                0 <= n <= old(self)@.len(),
                self.items@ == old(self)@.subrange(n, old(self)@.len() as int),
                forall|j: int| 0 <= j < n ==> old(self)@[j].key <= *key,
                sorted_by_key(old(self)@),
                val@ == as_pairs(old(self)@.subrange(0, n)),
            decreases self.items@.len(),
        {
            let c = self.items.remove(0);
            val.push((c.key, c.item));
            proof {
                assert(old(self)@.subrange(0, n + 1) =~= old(self)@.subrange(0, n).push(
                    old(self)@[n],
                ));
                n = n + 1;
                assert(val@ =~= as_pairs(old(self)@.subrange(0, n)));
            }
        }
        proof {
            let s = old(self)@;
            lemma_filter_split(s, n, ready_at(*key), pending_at(*key));
            assert forall|a: int, b: int|
                0 <= a <= b < self.items@.len() implies self.items@[a].key
                <= self.items@[b].key by {
                assert(self.items@[a] == s[n + a]);
                assert(self.items@[b] == s[n + b]);
            }
        }
        val
    }

    /// Removes every item whose key is `key` or later and returns them all,
    /// by ascending key; the items with earlier keys stay.
    pub fn drain_after(&mut self, key: &u64) -> (r: Vec<(u64, T)>)
        requires
            old(self).wf(),
        ensures
            final(self).wf(),
            r@ == as_pairs(old(self)@.filter(key_from(*key))),
            final(self)@ == old(self)@.filter(key_before(*key)),
    {
        let mut m: usize = 0;
        while m < self.items.len() && self.items[m].key < *key
            invariant
                self.items@ == old(self)@,
                sorted_by_key(self.items@),
                0 <= m <= self.items@.len(),
                forall|j: int| 0 <= j < m ==> self.items@[j].key < *key,
            decreases self.items@.len() - m,
        {
            m = m + 1;
        }
        let mut later = self.items.split_off(m);
        let ghost tail = later@;
        let mut val: Vec<(u64, T)> = Vec::new();
        let ghost n: int = 0;
        while later.len() > 0
            invariant
                0 <= n <= tail.len(),
                later@ == tail.subrange(n, tail.len() as int),
                val@ == as_pairs(tail.subrange(0, n)),
            decreases later@.len(),
        {
            let c = later.remove(0);
            val.push((c.key, c.item));
            proof {
                assert(tail.subrange(0, n + 1) =~= tail.subrange(0, n).push(tail[n]));
                n = n + 1;
                assert(val@ =~= as_pairs(tail.subrange(0, n)));
            }
        }
        proof {
            let s = old(self)@;
            assert(tail =~= s.subrange(m as int, s.len() as int));
            assert(tail.subrange(0, n) =~= tail);
            lemma_filter_split(s, m as int, key_before(*key), key_from(*key));
            assert(self.items@ =~= s.subrange(0, m as int));
        }
        val
    }

    /// The number of pending items.
    pub fn len(&self) -> (r: usize)
        ensures
            r == self@.len(),
    {
        self.items.len()
    }

    /// Whether no item is pending.
    pub fn is_empty(&self) -> (r: bool)
        ensures
            r == (self@.len() == 0),
    {
        self.items.len() == 0
    }
}

impl<T> Default for ReadyBuffer<T> {
    fn default() -> (r: Self)
        ensures
            r.wf(),
            r@ == Seq::<ItemWithReadyKey<T>>::empty(),
    {
        ReadyBuffer::new()
    }
}

} // verus!
