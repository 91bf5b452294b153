//! Maps and sets over ordered keys, kept as vectors in ascending key order.

use vstd::prelude::*;

verus! {

/// A key with a total order, given by its place among the integers.
pub trait Key: Copy {
    /// Place of the key in the order; different keys have different places.
    spec fn rank(self) -> int;

    proof fn rank_injective(a: Self, b: Self)
        requires
            a.rank() == b.rank(),
        ensures
            a == b,
    ;

    /// Whether `self` stands before `other` in the order.
    fn precedes(&self, other: &Self) -> (r: bool)
        ensures
            r == (self.rank() < other.rank()),
    ;
}

/// The keys of `s` stand in strictly ascending order.
pub open spec fn ascending<K: Key>(s: Seq<K>) -> bool {
    forall|i: int, j: int| 0 <= i < j < s.len() ==> (#[trigger] s[i]).rank() < (#[trigger] s[j]).rank()
}

/// `s` lists the members of `set`, each once, in ascending order.
pub open spec fn lists<K: Key>(s: Seq<K>, set: Set<K>) -> bool {
    &&& ascending(s)
    &&& forall|k: K| #[trigger] set.contains(k) <==> s.contains(k)
}

/// The ascending list of `set`, where it has one.
pub open spec fn listed<K: Key>(set: Set<K>) -> Seq<K> {
    choose|s: Seq<K>| lists(s, set)
}

/// An ascending list of a set is the list that [`listed`] names.
pub proof fn lemma_listed<K: Key>(s: Seq<K>, set: Set<K>)
    requires
        lists(s, set),
    ensures
        listed(set) == s,
        lists(listed(set), set),
{
    lemma_lists_unique(s, listed(set), set);
}

/// One more key finds its place in an ascending list.
proof fn lemma_one_more_is_listed<K: Key>(s: Seq<K>, set: Set<K>, k: K) -> (r: Seq<K>)
    requires
        lists(s, set),
        !set.contains(k),
    ensures
        lists(r, set.insert(k)),
    decreases s.len(),
{
    if s.len() == 0 || s.last().rank() < k.rank() {
        let r = s.push(k);
        assert forall|x: K| #[trigger] set.insert(k).contains(x) <==> r.contains(x) by {
            if set.contains(x) {
                let i = choose|i: int| 0 <= i < s.len() && s[i] == x;
                assert(r[i] == x);
            }
            if r.contains(x) {
                let i = choose|i: int| 0 <= i < r.len() && r[i] == x;
                if i < s.len() {
                    assert(s[i] == x);
                }
            }
            assert(r[s.len() as int] == k);
        }
        r
    } else {
        let top = s.last();
        let rest = s.drop_last();
        assert(s.contains(top));
        assert(set.contains(top));
        assert forall|x: K| #[trigger] set.remove(top).contains(x) <==> rest.contains(x) by {
            if set.contains(x) && x != top {
                let i = choose|i: int| 0 <= i < s.len() && s[i] == x;
                assert(rest[i] == x);
            }
            if rest.contains(x) {
                let i = choose|i: int| 0 <= i < rest.len() && rest[i] == x;
                assert(s[i] == x);
                assert(s.contains(x));
                assert(s[i].rank() < s[s.len() - 1].rank());
            }
        }
        let lower = lemma_one_more_is_listed(rest, set.remove(top), k);
        let r = lower.push(top);
        if k.rank() == top.rank() {
            K::rank_injective(k, top);
        }
        assert forall|i: int| 0 <= i < lower.len() implies (#[trigger] lower[i]).rank()
            < top.rank() by {
            assert(lower.contains(lower[i]));
            assert(set.remove(top).insert(k).contains(lower[i]));
            if lower[i] != k {
                assert(rest.contains(lower[i]));
                let j = choose|j: int| 0 <= j < rest.len() && rest[j] == lower[i];
                assert(s[j].rank() < s[s.len() - 1].rank());
            }
        }
        assert forall|x: K| #[trigger] set.insert(k).contains(x) <==> r.contains(x) by {
            if set.insert(k).contains(x) && x != top {
                assert(set.remove(top).insert(k).contains(x));
                let i = choose|i: int| 0 <= i < lower.len() && lower[i] == x;
                assert(r[i] == x);
            }
            if r.contains(x) {
                let i = choose|i: int| 0 <= i < r.len() && r[i] == x;
                if i < lower.len() {
                    assert(lower[i] == x);
                    assert(lower.contains(x));
                    assert(set.remove(top).insert(k).contains(x));
                }
            }
            assert(r[lower.len() as int] == top);
        }
        r
    }
}

/// Every finite set of keys has an ascending list.
pub proof fn lemma_finite_is_listed<K: Key>(set: Set<K>)
    requires
        set.finite(),
    ensures
        lists(listed(set), set),
    decreases set.len(),
{
    if set.len() == 0 {
        let s = Seq::<K>::empty();
        assert(set =~= Set::<K>::empty());
        assert(lists(s, set));
    } else {
        let k = set.choose();
        lemma_finite_is_listed(set.remove(k));
        let s = lemma_one_more_is_listed(listed(set.remove(k)), set.remove(k), k);
        assert(set.remove(k).insert(k) =~= set);
        assert(lists(s, set));
    }
}

/// The members of a sequence have an ascending list.
pub proof fn lemma_members_are_listed<K: Key>(s: Seq<K>)
    ensures
        lists(listed(s.to_set()), s.to_set()),
{
    vstd::seq_lib::seq_to_set_is_finite(s);
    lemma_finite_is_listed(s.to_set());
}

/// Every set of peers has an ascending list.
pub proof fn lemma_peers_are_listed(set: Set<u16>)
    ensures
        lists(listed(set), set),
{
    lemma_peers_below_are_finite(set, 0x1_0000);
    assert(set.filter(|p: u16| p < 0x1_0000) =~= set);
    lemma_finite_is_listed(set);
}

proof fn lemma_peers_below_are_finite(set: Set<u16>, n: nat)
    ensures
        set.filter(|p: u16| p < n).finite(),
    decreases n,
{
    let below = set.filter(|p: u16| p < n);
    if n == 0 {
        assert(below =~= Set::<u16>::empty());
    } else {
        let m = (n - 1) as nat;
        lemma_peers_below_are_finite(set, m);
        let rest = set.filter(|p: u16| p < m);
        if n <= 0x1_0000 && set.contains(m as u16) {
            assert(below =~= rest.insert(m as u16));
        } else {
            assert(below =~= rest);
        }
    }
}

/// `after` is `before` without its `n` lowest keys.
pub open spec fn lowest_dropped<K: Key, V>(before: Map<K, V>, after: Map<K, V>, n: int) -> bool {
    &&& before.dom().len() == after.dom().len() + n
    &&& forall|k: K| #[trigger] after.dom().contains(k) ==> before.dom().contains(k) && after[k] == before[k]
    &&& forall|k: K, l: K|
        before.dom().contains(k) && !(#[trigger] after.dom().contains(k))
            && #[trigger] after.dom().contains(l) ==> k.rank() < l.rank()
}

/// A set has one ascending list.
pub proof fn lemma_lists_unique<K: Key>(a: Seq<K>, b: Seq<K>, set: Set<K>)
    requires
        lists(a, set),
        lists(b, set),
    ensures
        a == b,
{
    lemma_lists_no_dup(a);
    lemma_lists_no_dup(b);
    assert(a.to_set() =~= set);
    assert(b.to_set() =~= set);
    a.unique_seq_to_set();
    b.unique_seq_to_set();
    lemma_ascending_unique(a, b);
}

/// A list without repetition counts its members.
pub proof fn lemma_lists_len<K: Key>(s: Seq<K>, set: Set<K>)
    requires
        lists(s, set),
    ensures
        set.finite(),
        set.len() == s.len(),
        set == s.to_set(),
{
    lemma_lists_no_dup(s);
    assert(s.to_set() =~= set);
    s.unique_seq_to_set();
}

proof fn lemma_lists_no_dup<K: Key>(s: Seq<K>)
    requires
        ascending(s),
    ensures
        s.no_duplicates(),
{
}

proof fn lemma_ascending_unique<K: Key>(a: Seq<K>, b: Seq<K>)
    requires
        ascending(a),
        ascending(b),
        a.len() == b.len(),
        a.to_set() == b.to_set(),
    ensures
        a == b,
    decreases a.len(),
{
    if a.len() > 0 {
        let x = a[a.len() - 1];
        let y = b[b.len() - 1];
        assert(a.to_set().contains(x));
        assert(b.to_set().contains(y));
        assert(b.contains(x));
        assert(a.contains(y));
        let i = choose|i: int| 0 <= i < b.len() && b[i] == x;
        let j = choose|j: int| 0 <= j < a.len() && a[j] == y;
        assert(x.rank() == y.rank());
        K::rank_injective(x, y);
        let a0 = a.drop_last();
        let b0 = b.drop_last();
        assert(a0.to_set() =~= b0.to_set()) by {
            assert forall|k: K| a0.contains(k) implies b0.contains(k) by {
                let m = choose|m: int| 0 <= m < a0.len() && a0[m] == k;
                assert(a[m] == k);
                assert(a.to_set().contains(k));
                assert(b.contains(k));
                let n = choose|n: int| 0 <= n < b.len() && b[n] == k;
                assert(a[m].rank() < a[a.len() - 1].rank());
                assert(b0[n] == k);
            }
            assert forall|k: K| b0.contains(k) implies a0.contains(k) by {
                let m = choose|m: int| 0 <= m < b0.len() && b0[m] == k;
                assert(b[m] == k);
                assert(b.to_set().contains(k));
                assert(a.contains(k));
                let n = choose|n: int| 0 <= n < a.len() && a[n] == k;
                assert(b[m].rank() < b[b.len() - 1].rank());
                assert(a0[n] == k);
            }
        }
        lemma_ascending_unique(a0, b0);
        assert(a =~= a0.push(x));
        assert(b =~= b0.push(y));
    } else {
        assert(a =~= b);
    }
}

spec fn entry_keys<K: Key, V>(e: Seq<(K, V)>) -> Seq<K> {
    e.map_values(|p: (K, V)| p.0)
}

spec fn entry_map<K: Key, V>(e: Seq<(K, V)>) -> Map<K, V> {
    Map::new(
        |k: K| exists|i: int| 0 <= i < e.len() && (#[trigger] e[i]).0 == k,
        |k: K| e[choose|i: int| 0 <= i < e.len() && (#[trigger] e[i]).0 == k].1,
    )
}

proof fn lemma_entry<K: Key, V>(e: Seq<(K, V)>, i: int)
    requires
        ascending(entry_keys(e)),
        0 <= i < e.len(),
    ensures
        entry_map(e).dom().contains(e[i].0),
        entry_map(e)[e[i].0] == e[i].1,
{
    let k = e[i].0;
    let j = choose|j: int| 0 <= j < e.len() && (#[trigger] e[j]).0 == k;
    assert(0 <= j < e.len() && e[j].0 == k);
    let keys = entry_keys(e);
    assert(keys[i] == e[i].0);
    assert(keys[j] == e[j].0);
    if i < j {
        assert(keys[i].rank() < keys[j].rank());
    } else if j < i {
        assert(keys[j].rank() < keys[i].rank());
    }
}

proof fn lemma_keys_list<K: Key, V>(e: Seq<(K, V)>)
    requires
        ascending(entry_keys(e)),
    ensures
        lists(entry_keys(e), entry_map(e).dom()),
{
    let keys = entry_keys(e);
    assert forall|k: K| #[trigger] entry_map(e).dom().contains(k) <==> keys.contains(k) by {
        if entry_map(e).dom().contains(k) {
            let i = choose|i: int| 0 <= i < e.len() && (#[trigger] e[i]).0 == k;
            assert(keys[i] == k);
        }
        if keys.contains(k) {
            let i = choose|i: int| 0 <= i < keys.len() && keys[i] == k;
            assert(e[i].0 == k);
        }
    }
}

/// The entries of `m` that satisfy `kept`.
pub open spec fn kept_entries<K, V>(m: Map<K, V>, kept: spec_fn(K, V) -> bool) -> Map<K, V> {
    Map::new(|k: K| m.dom().contains(k) && kept(k, m[k]), |k: K| m[k])
}

/// A map in ascending key order.
#[derive(Debug, PartialEq, Eq)]
#[verifier::reject_recursive_types(K)]
pub struct KeyMap<K: Key, V> {
    entries: Vec<(K, V)>,
}

impl<K: Key, V> View for KeyMap<K, V> {
    type V = Map<K, V>;

    closed spec fn view(&self) -> Map<K, V> {
        entry_map(self.entries@)
    }
}

impl<K: Key, V> KeyMap<K, V> {
    #[verifier::type_invariant]
    spec fn in_key_order(self) -> bool {
        ascending(entry_keys(self.entries@))
    }

    /// The keys in ascending order.
    pub closed spec fn keys(&self) -> Seq<K> {
        entry_keys(self.entries@)
    }

    /// An empty map.
    pub fn new() -> (m: Self)
        ensures
            m@ == Map::<K, V>::empty(),
            m.keys() == Seq::<K>::empty(),
    {
        let m = KeyMap { entries: Vec::new() };
        assert(m@ =~= Map::<K, V>::empty());
        assert(m.keys() =~= Seq::<K>::empty());
        m
    }

    /// Number of keys.
    pub fn len(&self) -> (n: usize)
        ensures
            n == self@.len(),
            n == self.keys().len(),
            lists(self.keys(), self@.dom()),
            self@.dom().finite(),
    {
        proof {
            use_type_invariant(self);
            lemma_keys_list(self.entries@);
            lemma_lists_len(self.keys(), self@.dom());
        }
        self.entries.len()
    }

    /// Whether there is no key.
    pub fn is_empty(&self) -> (b: bool)
        ensures
            b == (self@ == Map::<K, V>::empty()),
            b == (self@.len() == 0),
            b == (self.keys().len() == 0),
    {
        proof {
            use_type_invariant(self);
            lemma_keys_list(self.entries@);
            lemma_lists_len(self.keys(), self@.dom());
            if self.entries@.len() == 0 {
                assert(self@ =~= Map::<K, V>::empty());
            } else {
                lemma_entry(self.entries@, 0);
            }
        }
        self.entries.is_empty()
    }

    /// First place whose key does not precede `key`.
    fn place(&self, key: &K) -> (p: usize)
        ensures
            p <= self.entries@.len(),
            forall|i: int| 0 <= i < p ==> (#[trigger] self.entries@[i]).0.rank() < key.rank(),
            forall|i: int|
                p <= i < self.entries@.len() ==> (#[trigger] self.entries@[i]).0.rank()
                    >= key.rank(),
    {
        proof {
            use_type_invariant(self);
        }
        let ghost keys = self.keys();
        assert forall|i: int| 0 <= i < self.entries@.len() implies keys[i] == (
        #[trigger] self.entries@[i]).0 by {}
        let mut low: usize = 0;
        let mut high: usize = self.entries.len();
        while low < high
            invariant
                low <= high <= self.entries@.len(),
                keys == self.keys(),
                keys.len() == self.entries@.len(),
                ascending(keys),
                forall|i: int| 0 <= i < self.entries@.len() ==> keys[i] == (#[trigger] self.entries@[i]).0,
                forall|i: int| 0 <= i < low ==> (#[trigger] self.entries@[i]).0.rank() < key.rank(),
                forall|i: int|
                    high <= i < self.entries@.len() ==> (#[trigger] self.entries@[i]).0.rank()
                        >= key.rank(),
            decreases high - low,
        {
            let mid: usize = low + (high - low) / 2;
            if self.entries[mid].0.precedes(key) {
                proof {
                    assert forall|i: int| 0 <= i < mid + 1 implies (
                    #[trigger] self.entries@[i]).0.rank() < key.rank() by {
                        assert(keys[i] == self.entries@[i].0);
                        if i < mid {
                            assert(keys[i].rank() < keys[mid as int].rank());
                        }
                    }
                }
                low = mid + 1;
            } else {
                proof {
                    assert forall|i: int| mid <= i < self.entries@.len() implies (
                    #[trigger] self.entries@[i]).0.rank() >= key.rank() by {
                        assert(keys[i] == self.entries@[i].0);
                        if i > mid {
                            assert(keys[mid as int].rank() < keys[i].rank());
                        }
                    }
                }
                high = mid;
            }
        }
        low
    }

    proof fn lemma_place_absent(&self, key: K, p: int)
        requires
            ascending(entry_keys(self.entries@)),
            0 <= p <= self.entries@.len(),
            forall|i: int| 0 <= i < p ==> (#[trigger] self.entries@[i]).0.rank() < key.rank(),
            forall|i: int|
                p <= i < self.entries@.len() ==> (#[trigger] self.entries@[i]).0.rank()
                    >= key.rank(),
            p == self.entries@.len() || self.entries@[p].0 != key,
        ensures
            !self@.dom().contains(key),
            forall|i: int|
                p <= i < self.entries@.len() ==> (#[trigger] self.entries@[i]).0.rank()
                    > key.rank(),
    {
        let e = self.entries@;
        assert forall|i: int| p <= i < e.len() implies (#[trigger] e[i]).0.rank() > key.rank() by {
            if e[i].0.rank() == key.rank() {
                K::rank_injective(e[i].0, key);
                if i > p {
                    assert(entry_keys(e)[p] == e[p].0 && entry_keys(e)[i] == e[i].0);
                    assert(e[p].0.rank() < e[i].0.rank());
                }
            }
        }
        if self@.dom().contains(key) {
            let i = choose|i: int| 0 <= i < e.len() && (#[trigger] e[i]).0 == key;
            assert(e[i].0.rank() == key.rank());
        }
    }

    /// The value stored under `key`.
    pub fn get(&self, key: &K) -> (r: Option<&V>)
        ensures
            self@.dom().contains(*key) <==> r is Some,
            r matches Some(v) ==> *v == self@[*key],
    {
        proof {
            use_type_invariant(self);
        }
        let p: usize = self.place(key);
        if p < self.entries.len() && !key.precedes(&self.entries[p].0) {
            proof {
                K::rank_injective(self.entries@[p as int].0, *key);
                lemma_entry(self.entries@, p as int);
            }
            Some(&self.entries[p].1)
        } else {
            proof {
                self.lemma_place_absent(*key, p as int);
            }
            None
        }
    }

    /// Whether `key` has a value.
    pub fn contains_key(&self, key: &K) -> (b: bool)
        ensures
            b == self@.dom().contains(*key),
    {
        self.get(key).is_some()
    }

    /// Stores `value` under `key` and hands back the value it replaces.
    pub fn insert(&mut self, key: K, value: V) -> (r: Option<V>)
        ensures
            final(self)@ == old(self)@.insert(key, value),
            r == (if old(self)@.dom().contains(key) {
                Some(old(self)@[key])
            } else {
                None::<V>
            }),
    {
        proof {
            use_type_invariant(&*self);
        }
        let ghost e = self.entries@;
        let p: usize = self.place(&key);
        if p < self.entries.len() && !key.precedes(&self.entries[p].0) {
            proof {
                K::rank_injective(self.entries@[p as int].0, key);
                lemma_entry(self.entries@, p as int);
            }
            let mut entries: Vec<(K, V)> = Vec::new();
            std::mem::swap(&mut entries, &mut self.entries);
            let (_, before) = entries.remove(p);
            entries.insert(p, (key, value));
            proof {
                assert(entries@ =~= e.update(p as int, (key, value)));
                assert(entry_keys(entries@) =~= entry_keys(e));
                lemma_map_update(e, p as int, value);
            }
            self.entries = entries;
            Some(before)
        } else {
            proof {
                self.lemma_place_absent(key, p as int);
            }
            let mut entries: Vec<(K, V)> = Vec::new();
            std::mem::swap(&mut entries, &mut self.entries);
            entries.insert(p, (key, value));
            proof {
                lemma_map_insert(e, p as int, key, value);
            }
            self.entries = entries;
            None
        }
    }

    /// Takes out the value stored under `key`.
    pub fn remove(&mut self, key: &K) -> (r: Option<V>)
        ensures
            final(self)@ == old(self)@.remove(*key),
            r == (if old(self)@.dom().contains(*key) {
                Some(old(self)@[*key])
            } else {
                None::<V>
            }),
    {
        proof {
            use_type_invariant(&*self);
        }
        let ghost e = self.entries@;
        let p: usize = self.place(key);
        if p < self.entries.len() && !key.precedes(&self.entries[p].0) {
            proof {
                K::rank_injective(self.entries@[p as int].0, *key);
                lemma_entry(self.entries@, p as int);
            }
            let mut entries: Vec<(K, V)> = Vec::new();
            std::mem::swap(&mut entries, &mut self.entries);
            let (_, before) = entries.remove(p);
            proof {
                lemma_map_remove(e, p as int);
            }
            self.entries = entries;
            Some(before)
        } else {
            proof {
                self.lemma_place_absent(*key, p as int);
                assert(self@ =~= self@.remove(*key));
            }
            None
        }
    }

    /// Drops every key.
    pub fn clear(&mut self)
        ensures
            final(self)@ == Map::<K, V>::empty(),
    {
        let mut entries: Vec<(K, V)> = Vec::new();
        std::mem::swap(&mut entries, &mut self.entries);
        assert(self@ =~= Map::<K, V>::empty());
    }

    /// Drops the `n` lowest keys and hands them out in ascending order.
    pub fn drop_lowest(&mut self, n: usize) -> (dropped: Vec<K>)
        requires
            n <= old(self)@.len(),
        ensures
            lowest_dropped(old(self)@, final(self)@, n as int),
            lists(dropped@, old(self)@.dom().difference(final(self)@.dom())),
            dropped@.len() == n,
    {
        let count: usize = self.len();
        let ghost before = self@;
        let ghost keys = self.keys();
        let mut dropped: Vec<K> = Vec::new();
        let mut i: usize = 0;
        while i < n
            invariant
                i <= n <= count,
                count == keys.len(),
                ascending(keys),
                lists(keys, before.dom()),
                before.dom().finite(),
                dropped@ == keys.take(i as int),
                self.keys() == keys.skip(i as int),
                self@.dom().len() == count - i,
                self@.dom().finite(),
                forall|k: K| #[trigger]
                    self@.dom().contains(k) <==> (exists|j: int|
                        i <= j < count && #[trigger] keys[j] == k),
                forall|k: K| #[trigger] self@.dom().contains(k) ==> self@[k] == before[k],
            decreases n - i,
        {
            let ghost mid = self@;
            proof {
                assert(self.keys()[0] == keys[i as int]);
            }
            let k = self.key_at(0);
            let _ = self.remove_at(0);
            dropped.push(k);
            proof {
                assert(keys.take(i + 1) =~= keys.take(i as int).push(k));
                assert(self.keys() =~= keys.skip(i + 1));
                assert forall|l: K| #[trigger] self@.dom().contains(l) <==> (exists|j: int|
                    i + 1 <= j < count && #[trigger] keys[j] == l) by {
                    if self@.dom().contains(l) {
                        assert(mid.dom().contains(l));
                        let j = choose|j: int| i <= j < count && #[trigger] keys[j] == l;
                        assert(j != i);
                    }
                    if exists|j: int| i + 1 <= j < count && #[trigger] keys[j] == l {
                        let j = choose|j: int| i + 1 <= j < count && #[trigger] keys[j] == l;
                        assert(keys[i as int].rank() < keys[j].rank());
                        assert(mid.dom().contains(keys[j]));
                    }
                }
            }
            i = i + 1;
        }
        proof {
            let after = self@;
            assert forall|k: K| #[trigger] after.dom().contains(k) implies before.dom().contains(k)
                && after[k] == before[k] by {
                let j = choose|j: int| i <= j < count && #[trigger] keys[j] == k;
                assert(keys.contains(keys[j]));
            }
            assert forall|k: K, l: K|
                before.dom().contains(k) && !(#[trigger] after.dom().contains(k))
                    && #[trigger] after.dom().contains(l) implies k.rank() < l.rank() by {
                assert(keys.contains(k));
                let a = choose|a: int| 0 <= a < keys.len() && keys[a] == k;
                let b = choose|b: int| i <= b < count && #[trigger] keys[b] == l;
                assert(a < i);
                assert(keys[a].rank() < keys[b].rank());
            }
            let gone = before.dom().difference(after.dom());
            assert forall|k: K| #[trigger] gone.contains(k) <==> dropped@.contains(k) by {
                if gone.contains(k) {
                    assert(keys.contains(k));
                    let a = choose|a: int| 0 <= a < keys.len() && keys[a] == k;
                    assert(a < i) by {
                        if a >= i {
                            assert(keys[a] == k);
                            assert(after.dom().contains(k));
                        }
                    }
                    assert(dropped@[a] == k);
                }
                if dropped@.contains(k) {
                    let a = choose|a: int| 0 <= a < dropped@.len() && dropped@[a] == k;
                    assert(keys[a] == k);
                    assert(keys.contains(keys[a]));
                    if after.dom().contains(k) {
                        let b = choose|b: int| i <= b < count && #[trigger] keys[b] == k;
                        assert(keys[a].rank() < keys[b].rank());
                    }
                }
            }
        }
        dropped
    }

    /// Takes out the entry at place `p` of the ascending order.
    fn remove_at(&mut self, p: usize) -> (v: V)
        requires
            p < old(self).keys().len(),
        ensures
            final(self)@ == old(self)@.remove(old(self).keys()[p as int]),
            final(self).keys() == old(self).keys().remove(p as int),
            old(self)@.dom().contains(old(self).keys()[p as int]),
    {
        proof {
            use_type_invariant(&*self);
            lemma_entry(self.entries@, p as int);
        }
        let ghost e = self.entries@;
        let mut entries: Vec<(K, V)> = Vec::new();
        std::mem::swap(&mut entries, &mut self.entries);
        let (_, value) = entries.remove(p);
        proof {
            lemma_map_remove(e, p as int);
            assert(entry_keys(e.remove(p as int)) =~= entry_keys(e).remove(p as int));
        }
        self.entries = entries;
        value
    }

    /// Keeps the entries that satisfy `keep`.
    pub(crate) fn retain<F: Fn(&K, &V) -> bool>(
        &mut self,
        keep: F,
        Ghost(kept): Ghost<spec_fn(K, V) -> bool>,
    )
        requires
            forall|k: &K, v: &V| #[trigger] call_requires(keep, (k, v)),
            forall|k: &K, v: &V, r: bool| #[trigger]
                call_ensures(keep, (k, v), r) ==> r == kept(*k, *v),
        ensures
            final(self)@ == kept_entries(old(self)@, kept),
    {
        let ghost before = self@;
        let keys = self.key_list();
        let mut i: usize = 0;
        while i < keys.len()
            invariant
                forall|k: &K, v: &V| #[trigger] call_requires(keep, (k, v)),
                forall|k: &K, v: &V, r: bool| #[trigger]
                    call_ensures(keep, (k, v), r) ==> r == kept(*k, *v),
                i <= keys@.len(),
                lists(keys@, before.dom()),
                forall|j: int|
                    i <= j < keys@.len() ==> self@.dom().contains(#[trigger] keys@[j]),
                forall|k: K| #[trigger]
                    self@.dom().contains(k) ==> before.dom().contains(k) && self@[k] == before[k],
                forall|j: int|
                    0 <= j < i ==> (self@.dom().contains(#[trigger] keys@[j]) <==> kept(
                        keys@[j],
                        before[keys@[j]],
                    )),
            decreases keys@.len() - i,
        {
            let k = keys[i];
            let drop: bool = match self.get(&k) {
                None => false,
                Some(v) => !keep(&k, v),
            };
            if drop {
                let _ = self.remove(&k);
            }
            proof {
                assert forall|j: int| 0 <= j < keys@.len() && j != i implies keys@[j] != k by {
                    if j < i {
                        assert(keys@[j].rank() < keys@[i as int].rank());
                    } else {
                        assert(keys@[i as int].rank() < keys@[j].rank());
                    }
                }
            }
            i = i + 1;
        }
        proof {
            let want = kept_entries(before, kept);
            assert forall|k: K| #[trigger] self@.dom().contains(k) <==> want.dom().contains(k) by {
                if before.dom().contains(k) {
                    assert(keys@.contains(k));
                    let j = choose|j: int| 0 <= j < keys@.len() && keys@[j] == k;
                    assert(self@.dom().contains(keys@[j]) <==> kept(keys@[j], before[keys@[j]]));
                }
            }
            assert(self@ =~= want);
        }
    }

    /// Replaces every value by what `change` makes of it.
    pub(crate) fn transform<F: Fn(V) -> V>(
        &mut self,
        change: F,
        Ghost(rel): Ghost<spec_fn(V, V) -> bool>,
    )
        requires
            forall|v: V| #[trigger] call_requires(change, (v,)),
            forall|v: V, w: V| #[trigger] call_ensures(change, (v,), w) ==> rel(v, w),
        ensures
            final(self)@.dom() == old(self)@.dom(),
            forall|k: K| #[trigger]
                old(self)@.dom().contains(k) ==> rel(old(self)@[k], final(self)@[k]),
    {
        proof {
            use_type_invariant(&*self);
        }
        let ghost e = self.entries@;
        let mut entries: Vec<(K, V)> = Vec::new();
        std::mem::swap(&mut entries, &mut self.entries);
        let mut changed: Vec<(K, V)> = Vec::with_capacity(entries.len());
        for entry in it: entries
            invariant
                it.seq() == e,
                forall|v: V| #[trigger] call_requires(change, (v,)),
                forall|v: V, w: V| #[trigger] call_ensures(change, (v,), w) ==> rel(v, w),
                changed@.len() == it.index(),
                forall|j: int| 0 <= j < changed@.len() ==> (#[trigger] changed@[j]).0 == e[j].0,
                forall|j: int|
                    0 <= j < changed@.len() ==> rel(e[j].1, (#[trigger] changed@[j]).1),
        {
            let (k, v) = entry;
            changed.push((k, change(v)));
        }
        proof {
            let f = changed@;
            assert(entry_keys(e) =~= entry_keys(f));
            lemma_keys_list(e);
            lemma_keys_list(f);
            assert forall|k: K| entry_map(e).dom().contains(k) <==> entry_map(f).dom().contains(
                k,
            ) by {
                assert(entry_map(e).dom().contains(k) <==> entry_keys(e).contains(k));
                assert(entry_map(f).dom().contains(k) <==> entry_keys(f).contains(k));
            }
            assert(entry_map(e).dom() =~= entry_map(f).dom());
            assert forall|k: K| #[trigger] entry_map(e).dom().contains(k) implies rel(
                entry_map(e)[k],
                entry_map(f)[k],
            ) by {
                let j = choose|j: int| 0 <= j < e.len() && (#[trigger] e[j]).0 == k;
                lemma_entry(e, j);
                lemma_entry(f, j);
                assert(f[j].0 == e[j].0);
            }
        }
        self.entries = changed;
    }

    /// The key at place `i` of the ascending order.
    pub fn key_at(&self, i: usize) -> (k: K)
        requires
            i < self.keys().len(),
        ensures
            k == self.keys()[i as int],
            self@.dom().contains(k),
    {
        proof {
            use_type_invariant(self);
            lemma_entry(self.entries@, i as int);
        }
        self.entries[i].0
    }

    /// The value of the key at place `i` of the ascending order.
    pub fn value_at(&self, i: usize) -> (v: &V)
        requires
            i < self.keys().len(),
        ensures
            self@.dom().contains(self.keys()[i as int]),
            *v == self@[self.keys()[i as int]],
    {
        proof {
            use_type_invariant(self);
            lemma_entry(self.entries@, i as int);
        }
        &self.entries[i].1
    }

    /// The keys in ascending order.
    pub fn key_list(&self) -> (r: Vec<K>)
        ensures
            r@ == self.keys(),
            lists(r@, self@.dom()),
            self@.dom().finite(),
            r@.len() == self@.len(),
    {
        let n: usize = self.len();
        let mut r: Vec<K> = Vec::with_capacity(n);
        let mut i: usize = 0;
        while i < n
            invariant
                i <= n,
                n == self.keys().len(),
                r@ == self.keys().take(i as int),
            decreases n - i,
        {
            let k = self.key_at(i);
            r.push(k);
            proof {
                assert(self.keys().take(i + 1) =~= self.keys().take(i as int).push(k));
            }
            i = i + 1;
        }
        proof {
            assert(self.keys().take(n as int) =~= self.keys());
        }
        r
    }
}

proof fn lemma_map_update<K: Key, V>(e: Seq<(K, V)>, p: int, value: V)
    requires
        ascending(entry_keys(e)),
        0 <= p < e.len(),
    ensures
        entry_map(e.update(p, (e[p].0, value))) == entry_map(e).insert(e[p].0, value),
{
    let f = e.update(p, (e[p].0, value));
    assert(entry_keys(f) =~= entry_keys(e));
    assert forall|k: K| #[trigger] entry_map(f).dom().contains(k) <==> entry_map(e).insert(
        e[p].0,
        value,
    ).dom().contains(k) by {
        lemma_keys_list(e);
        lemma_keys_list(f);
        assert(entry_map(f).dom().contains(k) <==> entry_keys(f).contains(k));
        assert(entry_map(e).dom().contains(k) <==> entry_keys(e).contains(k));
        assert(entry_keys(e)[p] == e[p].0);
    }
    assert forall|k: K| #[trigger] entry_map(f).dom().contains(k) implies entry_map(f)[k]
        == entry_map(e).insert(e[p].0, value)[k] by {
        let i = choose|i: int| 0 <= i < f.len() && (#[trigger] f[i]).0 == k;
        lemma_entry(f, i);
        lemma_entry(e, i);
        if i != p {
            assert(entry_keys(e)[i] == e[i].0 && entry_keys(e)[p] == e[p].0);
            assert(e[i].0 != e[p].0);
        }
    }
    assert(entry_map(f) =~= entry_map(e).insert(e[p].0, value));
}

proof fn lemma_map_insert<K: Key, V>(e: Seq<(K, V)>, p: int, key: K, value: V)
    requires
        ascending(entry_keys(e)),
        0 <= p <= e.len(),
        forall|i: int| 0 <= i < p ==> (#[trigger] e[i]).0.rank() < key.rank(),
        forall|i: int| p <= i < e.len() ==> (#[trigger] e[i]).0.rank() > key.rank(),
    ensures
        ascending(entry_keys(e.insert(p, (key, value)))),
        entry_map(e.insert(p, (key, value))) == entry_map(e).insert(key, value),
{
    let f = e.insert(p, (key, value));
    let kf = entry_keys(f);
    let ke = entry_keys(e);
    assert forall|i: int, j: int| 0 <= i < j < kf.len() implies (#[trigger] kf[i]).rank() < (
    #[trigger] kf[j]).rank() by {
        let fi = if i < p { i } else { i - 1 };
        let fj = if j < p { j } else { j - 1 };
        if i != p {
            assert(f[i] == e[fi]);
            assert(ke[fi] == e[fi].0);
        }
        if j != p {
            assert(f[j] == e[fj]);
            assert(ke[fj] == e[fj].0);
        }
        if i != p && j != p {
            assert(ke[fi].rank() < ke[fj].rank());
        }
    }
    assert(f[p] == (key, value));
    assert forall|k: K| #[trigger] entry_map(f).dom().contains(k) <==> entry_map(e).insert(
        key,
        value,
    ).dom().contains(k) by {
        if entry_map(f).dom().contains(k) {
            let i = choose|i: int| 0 <= i < f.len() && (#[trigger] f[i]).0 == k;
            if i < p {
                lemma_entry(e, i);
                assert(e[i] == f[i]);
            } else if i > p {
                lemma_entry(e, i - 1);
                assert(e[i - 1] == f[i]);
            }
        }
        if entry_map(e).dom().contains(k) {
            let i = choose|i: int| 0 <= i < e.len() && (#[trigger] e[i]).0 == k;
            if i < p {
                lemma_entry(f, i);
                assert(e[i] == f[i]);
            } else {
                lemma_entry(f, i + 1);
                assert(e[i] == f[i + 1]);
            }
        }
        if k == key {
            lemma_entry(f, p);
        }
    }
    assert forall|k: K| #[trigger] entry_map(f).dom().contains(k) implies entry_map(f)[k]
        == entry_map(e).insert(key, value)[k] by {
        let i = choose|i: int| 0 <= i < f.len() && (#[trigger] f[i]).0 == k;
        lemma_entry(f, i);
        if i < p {
            lemma_entry(e, i);
            assert(e[i] == f[i]);
        } else if i > p {
            lemma_entry(e, i - 1);
            assert(e[i - 1] == f[i]);
        }
    }
    assert(entry_map(f) =~= entry_map(e).insert(key, value));
}

proof fn lemma_map_remove<K: Key, V>(e: Seq<(K, V)>, p: int)
    requires
        ascending(entry_keys(e)),
        0 <= p < e.len(),
    ensures
        ascending(entry_keys(e.remove(p))),
        entry_map(e.remove(p)) == entry_map(e).remove(e[p].0),
{
    let f = e.remove(p);
    let kf = entry_keys(f);
    let ke = entry_keys(e);
    assert forall|i: int, j: int| 0 <= i < j < kf.len() implies (#[trigger] kf[i]).rank() < (
    #[trigger] kf[j]).rank() by {
        let ei = if i < p { i } else { i + 1 };
        let ej = if j < p { j } else { j + 1 };
        assert(f[i] == e[ei] && f[j] == e[ej]);
        assert(ke[ei] == e[ei].0 && ke[ej] == e[ej].0);
        assert(ke[ei].rank() < ke[ej].rank());
    }
    let key = e[p].0;
    assert(ke[p] == key);
    assert forall|k: K| #[trigger] entry_map(f).dom().contains(k) <==> entry_map(e).remove(
        key,
    ).dom().contains(k) by {
        if entry_map(f).dom().contains(k) {
            let i = choose|i: int| 0 <= i < f.len() && (#[trigger] f[i]).0 == k;
            let ei = if i < p { i } else { i + 1 };
            assert(f[i] == e[ei]);
            assert(ke[ei] == e[ei].0);
            lemma_entry(e, ei);
            assert(ke[ei].rank() != ke[p].rank());
        }
        if entry_map(e).dom().contains(k) && k != key {
            let i = choose|i: int| 0 <= i < e.len() && (#[trigger] e[i]).0 == k;
            let fi = if i < p { i } else { i - 1 };
            assert(f[fi] == e[i]);
            lemma_entry(f, fi);
        }
    }
    assert forall|k: K| #[trigger] entry_map(f).dom().contains(k) implies entry_map(f)[k]
        == entry_map(e).remove(key)[k] by {
        let i = choose|i: int| 0 <= i < f.len() && (#[trigger] f[i]).0 == k;
        let ei = if i < p { i } else { i + 1 };
        assert(f[i] == e[ei]);
        lemma_entry(f, i);
        lemma_entry(e, ei);
    }
    assert(entry_map(f) =~= entry_map(e).remove(key));
}

impl<K: Key, V: Clone> Clone for KeyMap<K, V> {
    fn clone(&self) -> (m: Self)
        ensures
            m@.dom() == self@.dom(),
            forall|k: K| self@.dom().contains(k) ==> cloned::<V>(self@[k], #[trigger] m@[k]),
    {
        proof {
            use_type_invariant(self);
        }
        let n: usize = self.entries.len();
        let mut entries: Vec<(K, V)> = Vec::with_capacity(n);
        let mut i: usize = 0;
        while i < n
            invariant
                i <= n,
                n == self.entries@.len(),
                entries@.len() == i,
                forall|j: int| 0 <= j < i ==> (#[trigger] entries@[j]).0 == self.entries@[j].0,
                forall|j: int|
                    0 <= j < i ==> cloned::<V>(self.entries@[j].1, (#[trigger] entries@[j]).1),
            decreases n - i,
        {
            let v = self.entries[i].1.clone();
            entries.push((self.entries[i].0, v));
            i = i + 1;
        }
        proof {
            let e = self.entries@;
            let f = entries@;
            assert(entry_keys(e) =~= entry_keys(f));
            lemma_keys_list(e);
            lemma_keys_list(f);
            assert(entry_map(e).dom() =~= entry_map(f).dom()) by {
                assert forall|k: K| entry_map(e).dom().contains(k) <==> entry_map(
                    f,
                ).dom().contains(k) by {
                    assert(entry_map(e).dom().contains(k) <==> entry_keys(e).contains(k));
                    assert(entry_map(f).dom().contains(k) <==> entry_keys(f).contains(k));
                }
            }
            assert forall|k: K| entry_map(e).dom().contains(k) implies cloned::<V>(
                entry_map(e)[k],
                #[trigger] entry_map(f)[k],
            ) by {
                let j = choose|j: int| 0 <= j < e.len() && (#[trigger] e[j]).0 == k;
                lemma_entry(e, j);
                lemma_entry(f, j);
                assert(f[j].0 == e[j].0);
            }
        }
        KeyMap { entries }
    }
}

impl<K: Key, V> Default for KeyMap<K, V> {
    fn default() -> (m: Self)
        ensures
            m@ == Map::<K, V>::empty(),
    {
        KeyMap::new()
    }
}

/// A set in ascending order.
#[derive(Debug, PartialEq, Eq)]
#[verifier::reject_recursive_types(K)]
pub struct KeySet<K: Key> {
    members: KeyMap<K, ()>,
}

impl<K: Key> View for KeySet<K> {
    type V = Set<K>;

    closed spec fn view(&self) -> Set<K> {
        self.members@.dom()
    }
}

impl<K: Key> KeySet<K> {
    /// The members in ascending order.
    pub closed spec fn items(&self) -> Seq<K> {
        self.members.keys()
    }

    /// An empty set.
    pub fn new() -> (s: Self)
        ensures
            s@ == Set::<K>::empty(),
            s.items() == Seq::<K>::empty(),
    {
        let s = KeySet { members: KeyMap::new() };
        assert(s@ =~= Set::<K>::empty());
        s
    }

    /// The set of the elements of `items`.
    pub fn from_slice(items: &[K]) -> (s: Self)
        ensures
            s@ == items@.to_set(),
    {
        let mut s = KeySet::new();
        let n: usize = items.len();
        let mut i: usize = 0;
        proof {
            assert(items@.take(0).to_set() =~= Set::<K>::empty());
        }
        while i < n
            invariant
                i <= n,
                n == items@.len(),
                s@ == items@.take(i as int).to_set(),
            decreases n - i,
        {
            let _fresh: bool = s.insert(items[i]);
            proof {
                lemma_take_set(items@, i as int);
            }
            i = i + 1;
        }
        proof {
            assert(items@.take(n as int) =~= items@);
        }
        s
    }

    /// Adds every element of `items`.
    pub fn insert_all(&mut self, items: &[K])
        ensures
            final(self)@ == old(self)@.union(items@.to_set()),
    {
        let ghost start = self@;
        let n: usize = items.len();
        let mut i: usize = 0;
        proof {
            assert(start.union(items@.take(0).to_set()) =~= start);
        }
        while i < n
            invariant
                i <= n,
                n == items@.len(),
                self@ == start.union(items@.take(i as int).to_set()),
            decreases n - i,
        {
            let _fresh: bool = self.insert(items[i]);
            proof {
                lemma_take_set(items@, i as int);
                assert(self@ =~= start.union(items@.take(i + 1).to_set()));
            }
            i = i + 1;
        }
        proof {
            assert(items@.take(n as int) =~= items@);
        }
    }

    /// The members that `other` lacks, in ascending order.
    pub fn missing_from(&self, other: &Self) -> (r: Vec<K>)
        ensures
            lists(r@, self@.difference(other@)),
            r@.len() == 0 <==> self@.subset_of(other@),
    {
        let n: usize = self.len();
        let ghost items = self.items();
        let mut r: Vec<K> = Vec::new();
        let mut i: usize = 0;
        while i < n
            invariant
                i <= n,
                n == items.len(),
                items == self.items(),
                ascending(items),
                ascending(r@),
                forall|j: int|
                    0 <= j < r@.len() ==> exists|m: int| 0 <= m < i && items[m] == #[trigger] r@[j],
                forall|j: int| 0 <= j < r@.len() ==> !other@.contains(#[trigger] r@[j]),
                forall|m: int|
                    0 <= m < i && !other@.contains(#[trigger] items[m]) ==> r@.contains(items[m]),
            decreases n - i,
        {
            let k = self.at(i);
            let ghost mid = r@;
            if !other.contains(&k) {
                proof {
                    assert forall|j: int| 0 <= j < mid.len() implies (
                    #[trigger] mid[j]).rank() < k.rank() by {
                        let m = choose|m: int| 0 <= m < i && items[m] == mid[j];
                        assert(items[m].rank() < items[i as int].rank());
                    }
                }
                r.push(k);
                proof {
                    assert(r@[mid.len() as int] == k);
                    assert forall|m: int|
                        0 <= m < i + 1 && !other@.contains(#[trigger] items[m]) implies r@.contains(
                        items[m],
                    ) by {
                        if m < i {
                            assert(mid.contains(items[m]));
                            let j = choose|j: int| 0 <= j < mid.len() && mid[j] == items[m];
                            assert(r@[j] == items[m]);
                        }
                    }
                    assert forall|j: int| 0 <= j < r@.len() implies exists|m: int|
                        0 <= m < i + 1 && items[m] == #[trigger] r@[j] by {
                        if j < mid.len() {
                            assert(r@[j] == mid[j]);
                            let m = choose|m: int| 0 <= m < i && items[m] == mid[j];
                            assert(items[m] == r@[j]);
                        } else {
                            assert(items[i as int] == r@[j]);
                        }
                    }
                }
            }
            i = i + 1;
        }
        proof {
            let diff = self@.difference(other@);
            assert forall|k: K| #[trigger] diff.contains(k) <==> r@.contains(k) by {
                if diff.contains(k) {
                    assert(items.contains(k));
                    let m = choose|m: int| 0 <= m < items.len() && items[m] == k;
                    assert(!other@.contains(items[m]));
                }
                if r@.contains(k) {
                    let j = choose|j: int| 0 <= j < r@.len() && r@[j] == k;
                    let m = choose|m: int| 0 <= m < i && items[m] == r@[j];
                    assert(items.contains(items[m]));
                }
            }
            if r@.len() > 0 {
                assert(r@.contains(r@[0]));
                assert(diff.contains(r@[0]));
            } else {
                assert forall|k: K| self@.contains(k) implies other@.contains(k) by {
                    assert(!diff.contains(k));
                }
            }
        }
        r
    }

    /// Keeps the members that satisfy `keep`.
    pub(crate) fn retain<F: Fn(&K) -> bool>(
        &mut self,
        keep: F,
        Ghost(kept): Ghost<spec_fn(K) -> bool>,
    )
        requires
            forall|k: &K| #[trigger] call_requires(keep, (k,)),
            forall|k: &K, r: bool| #[trigger] call_ensures(keep, (k,), r) ==> r == kept(*k),
        ensures
            final(self)@ == old(self)@.filter(kept),
    {
        let ghost before = self.members@;
        let by_entry = |k: &K, v: &()| -> (r: bool)
            ensures
                r == kept(*k),
            {
                keep(k)
            };
        self.members.retain(by_entry, Ghost(|k: K, v: ()| kept(k)));
        assert(self@ =~= before.dom().filter(kept));
    }

    /// Number of members.
    pub fn len(&self) -> (n: usize)
        ensures
            n == self@.len(),
            n == self.items().len(),
            lists(self.items(), self@),
            self@.finite(),
    {
        self.members.len()
    }

    /// Whether there is no member.
    pub fn is_empty(&self) -> (b: bool)
        ensures
            b == (self@ == Set::<K>::empty()),
            b == (self.items().len() == 0),
    {
        let b: bool = self.members.is_empty();
        proof {
            if b {
                assert(self@ =~= Set::<K>::empty());
            } else {
                assert(self@ != Set::<K>::empty()) by {
                    if self@ == Set::<K>::empty() {
                        assert(self.members@ =~= Map::<K, ()>::empty());
                    }
                }
            }
        }
        b
    }

    /// Whether `key` is a member.
    pub fn contains(&self, key: &K) -> (b: bool)
        ensures
            b == self@.contains(*key),
    {
        self.members.contains_key(key)
    }

    /// Adds `key`; reports whether it was missing.
    pub fn insert(&mut self, key: K) -> (fresh: bool)
        ensures
            final(self)@ == old(self)@.insert(key),
            fresh == !old(self)@.contains(key),
    {
        let before = self.members.insert(key, ());
        assert(self@ =~= old(self)@.insert(key));
        before.is_none()
    }

    /// Takes `key` out; reports whether it was a member.
    pub fn remove(&mut self, key: &K) -> (had: bool)
        ensures
            final(self)@ == old(self)@.remove(*key),
            had == old(self)@.contains(*key),
    {
        let before = self.members.remove(key);
        assert(self@ =~= old(self)@.remove(*key));
        before.is_some()
    }

    /// Drops every member.
    pub fn clear(&mut self)
        ensures
            final(self)@ == Set::<K>::empty(),
    {
        self.members.clear();
        assert(self@ =~= Set::<K>::empty());
    }

    /// The member at place `i` of the ascending order.
    pub fn at(&self, i: usize) -> (k: K)
        requires
            i < self.items().len(),
        ensures
            k == self.items()[i as int],
            self@.contains(k),
    {
        self.members.key_at(i)
    }

    /// The members in ascending order.
    pub fn to_list(&self) -> (r: Vec<K>)
        ensures
            r@ == self.items(),
            lists(r@, self@),
            self@.finite(),
            r@.len() == self@.len(),
    {
        self.members.key_list()
    }
}

impl<K: Key> Clone for KeySet<K> {
    fn clone(&self) -> (s: Self)
        ensures
            s@ == self@,
    {
        KeySet { members: self.members.clone() }
    }
}

impl<K: Key> Default for KeySet<K> {
    fn default() -> (s: Self)
        ensures
            s@ == Set::<K>::empty(),
    {
        KeySet::new()
    }
}

/// Compares two lists of keys.
pub(crate) fn same_keys<K: Key>(a: &Vec<K>, b: &Vec<K>) -> (r: bool)
    ensures
        r == (a@ == b@),
{
    let n: usize = a.len();
    if n != b.len() {
        return false;
    }
    let mut i: usize = 0;
    while i < n
        invariant
            i <= n,
            n == a@.len(),
            n == b@.len(),
            forall|j: int| 0 <= j < i ==> a@[j] == b@[j],
        decreases n - i,
    {
        if a[i].precedes(&b[i]) || b[i].precedes(&a[i]) {
            return false;
        }
        proof {
            K::rank_injective(a@[i as int], b@[i as int]);
        }
        i = i + 1;
    }
    assert(a@ =~= b@);
    true
}

/// One more element of a sequence is one more member of the set of its prefix.
pub proof fn lemma_take_set<K>(s: Seq<K>, i: int)
    requires
        0 <= i < s.len(),
    ensures
        s.take(i + 1).to_set() == s.take(i).to_set().insert(s[i]),
{
    let a = s.take(i + 1);
    let b = s.take(i);
    assert(a =~= b.push(s[i]));
    assert forall|k: K| a.to_set().contains(k) <==> b.to_set().insert(s[i]).contains(k) by {
        if a.contains(k) {
            let j = choose|j: int| 0 <= j < a.len() && a[j] == k;
            if j < i {
                assert(b[j] == k);
            }
        }
        if b.contains(k) {
            let j = choose|j: int| 0 <= j < b.len() && b[j] == k;
            assert(a[j] == k);
        }
        if k == s[i] {
            assert(a[i] == k);
        }
    }
    assert(a.to_set() =~= b.to_set().insert(s[i]));
}

impl Key for u16 {
    open spec fn rank(self) -> int {
        self as int
    }

    proof fn rank_injective(a: Self, b: Self) {
    }

    fn precedes(&self, other: &Self) -> (r: bool) {
        *self < *other
    }
}

/// Keeping entries drops exactly those that are not to be kept, and changes none.
pub proof fn lemma_kept_entries_stay<K, V>(m: Map<K, V>, kept: spec_fn(K, V) -> bool, k: K)
    ensures
        kept_entries(m, kept).dom().contains(k) <==> m.dom().contains(k) && kept(k, m[k]),
        m.dom().contains(k) && kept(k, m[k]) ==> kept_entries(m, kept)[k] == m[k],
{
}

} // verus!
