use std::collections::HashMap;
use std::hash::Hash;
use vstd::prelude::*;
use vstd::std_specs::cmp::PartialEqSpec;

verus! {

/// What the cache needs of its key type: hashing is deterministic and `==`
/// on keys is identity (the hash table's key model), the executable `==`
/// agrees with identity, and a clone of a key is that same key.
pub open spec fn key_laws<K: Clone + Eq + Hash>() -> bool {
    &&& vstd::std_specs::hash::obeys_key_model::<K>()
    &&& vstd::laws_eq::obeys_concrete_eq::<K>()
    &&& forall|a: K, b: K| #[trigger] call_ensures(K::clone, (&a,), b) ==> a == b
}

/// The recency ordering after a lookup of `key`: a present key moves to the
/// front, and an absent key leaves the ordering as it was.
pub open spec fn order_after_get<K>(order: Seq<K>, key: K) -> Seq<K> {
    if order.contains(key) {
        seq![key] + order.remove_value(key)
    } else {
        order
    }
}

/// The recency ordering after inserting `key` into a cache of `capacity`
/// entries: the key goes to the front, leaving its old place if it was
/// present; a new key in a full cache pushes out the back key first. A cache
/// of capacity 0 keeps nothing.
pub open spec fn order_after_put<K>(order: Seq<K>, key: K, capacity: nat) -> Seq<K> {
    if capacity == 0 {
        order
    } else if order.contains(key) {
        seq![key] + order.remove_value(key)
    } else if order.len() >= capacity {
        seq![key] + order.drop_last()
    } else {
        seq![key] + order
    }
}

/// The entries after inserting `key` with `value` into a cache whose
/// recency ordering is `order`: the key maps to `value`, and a new key in a
/// full cache removes the least recently used entry first.
pub open spec fn entries_after_put<K, V>(
    entries: Map<K, V>,
    order: Seq<K>,
    key: K,
    value: V,
    capacity: nat,
) -> Map<K, V> {
    if capacity == 0 {
        entries
    } else if order.contains(key) || order.len() < capacity {
        entries.insert(key, value)
    } else {
        entries.remove(order.last()).insert(key, value)
    }
}

/// In `order`, `a` was touched more recently than `b`: it stands nearer the
/// front.
pub open spec fn more_recent<K>(order: Seq<K>, a: K, b: K) -> bool {
    exists|i: int, j: int| 0 <= i < j < order.len() && order[i] == a && order[j] == b
}

/// The key that inserting `key` pushes out of a cache of `capacity` entries
/// whose recency ordering is `order`, if any.
pub open spec fn evicted_by_put<K>(order: Seq<K>, key: K, capacity: nat) -> Option<K> {
    if capacity > 0 && !order.contains(key) && order.len() >= capacity {
        Some(order.last())
    } else {
        None
    }
}

/// The position of `key` in `order`, if it occurs there.
fn position_of<K: Eq>(order: &Vec<K>, key: &K) -> (r: Option<usize>)
    requires
        vstd::laws_eq::obeys_concrete_eq::<K>(),
    ensures
        match r {
            Some(i) => i < order@.len() && order@[i as int] == *key,
            None => !order@.contains(*key),
        },
{
    proof {
        reveal(vstd::laws_eq::obeys_concrete_eq);
    }
    let mut i: usize = 0;
    while i < order.len()
        invariant
            i <= order@.len(),
            forall|j: int| 0 <= j < i ==> order@[j] != *key,
            vstd::laws_eq::obeys_concrete_eq::<K>(),
        decreases order@.len() - i,
    {
        let same = order[i].eq(key);
        proof {
            reveal(vstd::laws_eq::obeys_concrete_eq);
            assert(same == order@[i as int].eq_spec(key));
        }
        if same {
            return Some(i);
        }
        i = i + 1;
    }
    None
}

/// In a sequence without duplicates, removing the value found at `i` is
/// removing position `i`.
proof fn lemma_remove_value_at<K>(s: Seq<K>, i: int)
    requires
        s.no_duplicates(),
        0 <= i < s.len(),
    ensures
        s.remove_value(s[i]) == s.remove(i),
{
    s.index_of_first_ensures(s[i]);
}

/// `key` in front of `s`, with or without the back key of `s`.
spec fn pushed_front<K>(s: Seq<K>, key: K, drop_back: bool) -> Seq<K> {
    seq![key] + (if drop_back { s.drop_last() } else { s })
}

/// Putting a new key in front of the ordering, with or without its back key,
/// keeps every key once.
proof fn lemma_push_front<K>(s: Seq<K>, key: K, drop_back: bool)
    requires
        s.no_duplicates(),
        !s.contains(key),
        drop_back ==> s.len() > 0,
    ensures
        pushed_front(s, key, drop_back).no_duplicates(),
        pushed_front(s, key, drop_back).len() == (if drop_back { s.len() } else { s.len() + 1 }),
        forall|x: K| #[trigger] pushed_front(s, key, drop_back).contains(x) <==> (x == key || (
            s.contains(x) && !(drop_back && x == s.last()))),
{
    let r = if drop_back { s.drop_last() } else { s };
    let t = pushed_front(s, key, drop_back);
    assert forall|j: int| 0 <= j < r.len() implies #[trigger] r[j] == s[j] by {}
    assert forall|a: int, b: int| 0 <= a < t.len() && 0 <= b < t.len() && a != b implies t[a] != t[b] by {
        if a > 0 {
            assert(t[a] == s[a - 1]);
        }
        if b > 0 {
            assert(t[b] == s[b - 1]);
        }
    }
    assert forall|x: K| #[trigger] pushed_front(s, key, drop_back).contains(x) <==> (x == key || (
        s.contains(x) && !(drop_back && x == s.last()))) by {
        if x == key {
            assert(t[0] == x);
        } else if s.contains(x) && !(drop_back && x == s.last()) {
            let k = choose|k: int| 0 <= k < s.len() && s[k] == x;
            assert(t[k + 1] == x);
        }
        if t.contains(x) && x != key {
            let j = choose|j: int| 0 <= j < t.len() && t[j] == x;
            assert(s[j - 1] == x);
            if drop_back {
                assert(j - 1 != s.len() - 1);
            }
        }
    }
}

/// Moving the key at `i` to the front keeps the keys, each once.
proof fn lemma_move_to_front<K>(s: Seq<K>, i: int)
    requires
        s.no_duplicates(),
        0 <= i < s.len(),
    ensures
        (seq![s[i]] + s.remove(i)).no_duplicates(),
        (seq![s[i]] + s.remove(i)).len() == s.len(),
        forall|x: K| #[trigger] (seq![s[i]] + s.remove(i)).contains(x) <==> s.contains(x),
{
    let t = seq![s[i]] + s.remove(i);
    s.remove_ensures(i);
    // position in `s` of the key at position `j` of `t`
    let src = |j: int| if j == 0 { i } else if j - 1 < i { j - 1 } else { j };
    assert forall|j: int| 0 <= j < t.len() implies 0 <= #[trigger] src(j) < s.len() && t[j] == s[src(j)] by {
        if j > 0 {
            assert(t[j] == s.remove(i)[j - 1]);
        }
    }
    assert forall|a: int, b: int| 0 <= a < t.len() && 0 <= b < t.len() && a != b implies t[a] != t[b] by {
        assert(t[a] == s[src(a)] && t[b] == s[src(b)]);
    }
    assert forall|x: K| #[trigger] t.contains(x) <==> s.contains(x) by {
        if s.contains(x) {
            let k = choose|k: int| 0 <= k < s.len() && s[k] == x;
            let j = if k == i { 0 } else if k < i { k + 1 } else { k };
            assert(t[j] == x);
        }
        if t.contains(x) {
            let j = choose|j: int| 0 <= j < t.len() && t[j] == x;
            assert(s[src(j)] == x);
        }
    }
}

/// A cache of at most `cache_capacity` entries.
///
/// `cache_content` maps each cached key to its value; `key_order` lists the
/// same keys from the most recently used (front) to the least recently used
/// (back). A key is touched when it is inserted or successfully looked up.
/// A cache built with capacity 0 never holds an entry: every insertion into
/// it is dropped.
pub struct MyLruCache<K, V> {
    cache_capacity: usize,
    pub cache_content: HashMap<K, V>,
    pub key_order: Vec<K>,
}

impl<K, V> MyLruCache<K, V> {
    /// The fixed number of entries the cache may hold.
    pub closed spec fn capacity(&self) -> nat {
        self.cache_capacity as nat
    }

    /// The keys from most to least recently used.
    pub closed spec fn order(&self) -> Seq<K> {
        self.key_order@
    }

    /// The cached entries.
    pub closed spec fn entries(&self) -> Map<K, V> {
        self.cache_content@
    }

    /// The index and the recency ordering hold the same keys, each once, and
    /// no more of them than the capacity allows.
    pub open spec fn wf(&self) -> bool {
        &&& self.order().no_duplicates()
        &&& forall|k: K| #[trigger] self.entries().contains_key(k) <==> self.order().contains(k)
        &&& self.order().len() <= self.capacity()
    }

    /// Creates an empty cache that holds at most `cache_capacity` entries.
    pub fn new(cache_capacity: usize) -> (r: Self)
        ensures
            r.wf(),
            r.capacity() == cache_capacity,
            r.order() == Seq::<K>::empty(),
            r.entries() == Map::<K, V>::empty(),
    {
        MyLruCache { cache_capacity, cache_content: HashMap::new(), key_order: Vec::new() }
    }

    /// The number of entries in the cache.
    pub fn len(&self) -> (r: usize)
        requires
            self.wf(),
        ensures
            r == self.order().len(),
            r == self.entries().len(),
    {
        proof {
            lemma_entries_len(self);
        }
        self.key_order.len()
    }

    /// Inserts `key` with `value`. The key becomes the most recently used; if
    /// it was present its value is replaced, and if it is new and the cache
    /// is full the least recently used entry is evicted first.
    pub fn insert_into_cache(&mut self, key: K, value: V)
        where
            K: Clone + Eq + Hash,
        requires
            old(self).wf(),
            key_laws::<K>(),
        ensures
            final(self).wf(),
            final(self).capacity() == old(self).capacity(),
            final(self).order() == order_after_put(old(self).order(), key, old(self).capacity()),
            final(self).entries() == entries_after_put(
                old(self).entries(),
                old(self).order(),
                key,
                value,
                old(self).capacity(),
            ),
            final(self).entries().len() <= final(self).capacity(),
    {
        proof {
            lemma_entries_len(self);
        }
        if self.cache_capacity == 0 {
            return;
        }
        let ghost s = self.order();
        let ghost evict = false;
        if self.cache_content.contains_key(&key) {
            if let Some(index) = position_of(&self.key_order, &key) {
                proof {
                    lemma_remove_value_at(s, index as int);
                    lemma_move_to_front(s, index as int);
                }
                self.key_order.remove(index);
            }
        } else if self.cache_content.len() >= self.cache_capacity {
            if let Some(lru_key) = self.key_order.pop() {
                self.cache_content.remove(&lru_key);
                proof {
                    evict = true;
                }
            }
        }
        let k = key.clone();
        self.cache_content.insert(k, value);
        self.key_order.insert(0, key);
        proof {
            if !s.contains(key) {
                lemma_push_front(s, key, evict);
                if evict {
                    assert(s.drop_last() =~= s.subrange(0, s.len() - 1));
                }
                assert(self.order() =~= pushed_front(s, key, evict));
            }
            assert(self.order() =~= order_after_put(s, key, old(self).capacity()));
            assert(self.entries() =~= entries_after_put(old(self).entries(), s, key, value, old(self).capacity()));
            assert forall|x: K| #[trigger] self.entries().contains_key(x) <==> self.order().contains(x) by {
                assert(old(self).entries().contains_key(x) <==> s.contains(x));
                if s.contains(key) {
                    let i = s.index_of(key);
                    assert((seq![s[i]] + s.remove(i)).contains(x) <==> s.contains(x));
                } else {
                    assert(pushed_front(s, key, evict).contains(x) <==> (x == key || (s.contains(x)
                        && !(evict && x == s.last()))));
                }
            }
            lemma_entries_len(self);
        }
    }

    /// Looks `key` up. A present key becomes the most recently used and its
    /// value is returned; an absent key changes nothing.
    pub fn get_cache_content(&mut self, key: &K) -> (r: Option<&V>)
        where
            K: Clone + Eq + Hash,
        requires
            old(self).wf(),
            key_laws::<K>(),
        ensures
            final(self).wf(),
            final(self).capacity() == old(self).capacity(),
            final(self).entries() == old(self).entries(),
            final(self).order() == order_after_get(old(self).order(), *key),
            match r {
                Some(v) => old(self).entries().contains_key(*key) && *v == old(self).entries()[*key],
                None => !old(self).entries().contains_key(*key),
            },
    {
        match position_of(&self.key_order, key) {
            Some(index) => {
                proof {
                    lemma_remove_value_at(self.order(), index as int);
                    lemma_move_to_front(self.order(), index as int);
                }
                let k = self.key_order.remove(index);
                self.key_order.insert(0, k);
                proof {
                    let s = old(self).order();
                    assert(self.order() =~= seq![s[index as int]] + s.remove(index as int));
                    assert(self.order() == order_after_get(s, *key));
                    assert forall|k: K| #[trigger] self.entries().contains_key(k) <==> self.order().contains(k) by {
                        assert(old(self).entries().contains_key(k) <==> s.contains(k));
                        assert((seq![s[index as int]] + s.remove(index as int)).contains(k) <==> s.contains(k));
                    }
                }
                self.cache_content.get(key)
            },
            None => None,
        }
    }
}

/// In a well-formed cache the index holds exactly as many entries as the
/// recency ordering holds keys, and no more than the capacity. `new` builds a
/// well-formed cache and every operation keeps it so, hence the number of
/// entries never exceeds the capacity after any call.
pub proof fn lemma_entries_len<K, V>(c: &MyLruCache<K, V>)
    requires
        c.wf(),
    ensures
        c.entries().len() == c.order().len(),
        c.entries().len() <= c.capacity(),
{
    assert(c.entries().dom() =~= c.order().to_set());
    c.order().unique_seq_to_set();
}

/// The keys that `get_cache_content` finds after an insertion are the keys
/// found before, plus the inserted key, minus the key that the insertion
/// evicted; the recency ordering still holds each key once.
pub proof fn lemma_put_keys<K, V>(c: &MyLruCache<K, V>, key: K, value: V)
    requires
        c.wf(),
    ensures
        ({
            let after = entries_after_put(c.entries(), c.order(), key, value, c.capacity());
            let evicted = evicted_by_put(c.order(), key, c.capacity());
            &&& c.capacity() > 0 ==> after.contains_key(key)
            &&& forall|x: K|
                x != key ==> (#[trigger] after.contains_key(x) <==> (c.entries().contains_key(x)
                    && evicted != Some(x)))
            &&& evicted != Some(key)
            &&& order_after_put(c.order(), key, c.capacity()).no_duplicates()
        }),
{
    let s = c.order();
    if c.capacity() > 0 {
        if s.contains(key) {
            let i = s.index_of(key);
            lemma_remove_value_at(s, i);
            lemma_move_to_front(s, i);
        } else {
            let evict = s.len() >= c.capacity();
            lemma_push_front(s, key, evict);
            assert(order_after_put(s, key, c.capacity()) =~= pushed_front(s, key, evict));
        }
    }
}

/// When the cache is full, inserting a new key evicts a key `b` before any
/// key `a` that was touched more recently: `a` stays, and if `b` stays too,
/// `a` is still the more recent of the two.
pub proof fn lemma_recency_eviction<K, V>(c: &MyLruCache<K, V>, a: K, b: K, key: K, value: V)
    requires
        c.wf(),
        more_recent(c.order(), a, b),
        !c.order().contains(key),
        c.order().len() == c.capacity(),
    ensures
        ({
            let order = order_after_put(c.order(), key, c.capacity());
            let entries = entries_after_put(c.entries(), c.order(), key, value, c.capacity());
            &&& entries.contains_key(a)
            &&& order.contains(a)
            &&& order.contains(b) ==> more_recent(order, a, b)
        }),
{
    let s = c.order();
    let (i, j) = choose|i: int, j: int| 0 <= i < j < s.len() && s[i] == a && s[j] == b;
    let t = order_after_put(s, key, c.capacity());
    assert(t =~= seq![key] + s.drop_last());
    assert(a != s.last());
    assert(t[i + 1] == a);
    if j + 1 < t.len() {
        assert(t[j + 1] == b);
    }
    assert(c.entries().contains_key(a) <==> s.contains(a));
}

/// Looking a key up twice in a row moves it at most once: the second lookup
/// leaves the recency ordering as the first one left it.
pub proof fn lemma_get_twice<K>(order: Seq<K>, key: K)
    ensures
        order_after_get(order_after_get(order, key), key) == order_after_get(order, key),
{
    if order.contains(key) {
        let t = seq![key] + order.remove_value(key);
        assert(t[0] == key);
        t.index_of_first_ensures(key);
        assert(t.remove(0) =~= order.remove_value(key));
        assert(seq![key] + t.remove(0) =~= t);
    }
}

} // verus!
