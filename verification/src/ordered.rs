//! Ordered sets and maps over keys with a total order.

use vstd::prelude::*;

verus! {

/// The outcome of comparing two keys.
#[derive(Clone, Copy, Debug, PartialEq, Eq, Structural)]
pub enum KeyOrder {
    /// The left key comes first.
    Less,
    /// The keys are the same.
    Equal,
    /// The right key comes first.
    Greater,
}

/// A key with a total order, given by an order-preserving injection into the integers.
pub trait Key: Copy + Sized {
    /// The position of the key in the order.
    spec fn ord(self) -> int;

    /// Two keys at the same position are the same key.
    proof fn lemma_ord_injective(a: Self, b: Self)
        ensures
            a.ord() == b.ord() ==> a == b,
    ;

    /// Compares two keys by their positions.
    fn compare(&self, other: &Self) -> (order: KeyOrder)
        ensures
            order == KeyOrder::Less <==> self.ord() < other.ord(),
            order == KeyOrder::Equal <==> self == other,
            order == KeyOrder::Greater <==> other.ord() < self.ord(),
    ;
}

impl Key for u64 {
    open spec fn ord(self) -> int {
        self as int
    }

    proof fn lemma_ord_injective(a: Self, b: Self) {
    }

    fn compare(&self, other: &Self) -> (order: KeyOrder) {
        if *self < *other {
            KeyOrder::Less
        } else if *self == *other {
            KeyOrder::Equal
        } else {
            KeyOrder::Greater
        }
    }
}

impl Key for usize {
    open spec fn ord(self) -> int {
        self as int
    }

    proof fn lemma_ord_injective(a: Self, b: Self) {
    }

    fn compare(&self, other: &Self) -> (order: KeyOrder) {
        if *self < *other {
            KeyOrder::Less
        } else if *self == *other {
            KeyOrder::Equal
        } else {
            KeyOrder::Greater
        }
    }
}

/// Whether the keys stand in strictly increasing order.
pub open spec fn increasing<K: Key>(keys: Seq<K>) -> bool {
    forall|i: int, j: int| 0 <= i < j < keys.len() ==> #[trigger] keys[i].ord() < #[trigger] keys[j].ord()
}

/// Keys in strictly increasing order are distinct.
pub proof fn lemma_increasing_no_duplicates<K: Key>(keys: Seq<K>)
    requires
        increasing(keys),
    ensures
        keys.no_duplicates(),
{
    assert forall|i: int, j: int|
        0 <= i < keys.len() && 0 <= j < keys.len() && i != j implies keys[i] != keys[j] by {
        if i < j {
            assert(keys[i].ord() < keys[j].ord());
        } else {
            assert(keys[j].ord() < keys[i].ord());
        }
    }
}

/// A set of keys has one increasing order.
pub proof fn lemma_increasing_unique<K: Key>(one: Seq<K>, other: Seq<K>)
    requires
        increasing(one),
        increasing(other),
        one.to_set() == other.to_set(),
    ensures
        one == other,
    decreases one.len(),
{
    lemma_increasing_no_duplicates(one);
    lemma_increasing_no_duplicates(other);
    one.unique_seq_to_set();
    other.unique_seq_to_set();
    if one.len() > 0 {
        let n = one.len() - 1;
        assert(one.to_set().contains(one[n]) && other.to_set().contains(other[n]));
        assert(other.contains(one[n]) && one.contains(other[n]));
        let i = other.index_of(one[n]);
        let j = one.index_of(other[n]);
        assert(other[i] == one[n] && one[j] == other[n]);
        if i < n {
            assert(other[i].ord() < other[n].ord());
            if j < n {
                assert(one[j].ord() < one[n].ord());
            }
        }
        assert(one[n] == other[n]);
        let a = one.drop_last();
        let b = other.drop_last();
        assert forall|x: K| a.to_set().contains(x) <==> b.to_set().contains(x) by {
            lemma_without_last(one, x);
            lemma_without_last(other, x);
            assert(one.to_set().contains(x) <==> other.to_set().contains(x));
        }
        assert(a.to_set() =~= b.to_set());
        lemma_increasing_unique(a, b);
        assert(one =~= a.push(one[n]));
        assert(other =~= b.push(one[n]));
    } else {
        assert(one =~= other);
    }
}

proof fn lemma_without_last<K>(keys: Seq<K>, x: K)
    requires
        keys.no_duplicates(),
        keys.len() > 0,
    ensures
        keys.drop_last().to_set().contains(x) <==> keys.to_set().contains(x) && x != keys.last(),
{
    if keys.contains(x) && x != keys.last() {
        let i = keys.index_of(x);
        assert(keys[i] == x);
        assert(keys.drop_last()[i] == x);
    }
    if keys.drop_last().contains(x) {
        let i = keys.drop_last().index_of(x);
        assert(keys[i] == x);
        assert(keys[i] != keys[keys.len() - 1]);
    }
}

/// The number of leading keys that come before `key`.
fn lower_bound<K: Key>(keys: &Vec<K>, key: &K) -> (at: usize)
    requires
        increasing(keys@),
    ensures
        at <= keys@.len(),
        forall|i: int| 0 <= i < at ==> (#[trigger] keys@[i]).ord() < key.ord(),
        forall|i: int| at <= i < keys@.len() ==> (#[trigger] keys@[i]).ord() >= key.ord(),
{
    let mut low: usize = 0;
    let mut high: usize = keys.len();
    while low < high
        invariant
            increasing(keys@),
            low <= high <= keys@.len(),
            forall|i: int| 0 <= i < low ==> (#[trigger] keys@[i]).ord() < key.ord(),
            forall|i: int| high <= i < keys@.len() ==> (#[trigger] keys@[i]).ord() >= key.ord(),
        decreases high - low,
    {
        let middle: usize = low + (high - low) / 2;
        match keys[middle].compare(key) {
            KeyOrder::Less => {
                low = middle + 1;
            },
            _ => {
                high = middle;
            },
        }
    }
    low
}

/// A map that keeps its entries in the order of their keys.
#[verifier::reject_recursive_types(K)]
#[derive(Debug)]
pub struct OrderedMap<K: Key, V> {
    keys: Vec<K>,
    values: Vec<V>,
}

impl<K: Key, V> OrderedMap<K, V> {
    #[verifier::type_invariant]
    spec fn well_formed(self) -> bool {
        &&& self.keys@.len() == self.values@.len()
        &&& increasing(self.keys@)
    }

    /// The keys in increasing order.
    pub closed spec fn key_seq(self) -> Seq<K> {
        self.keys@
    }

    /// The contents.
    pub closed spec fn view(self) -> Map<K, V> {
        Map::new(
            |key: K| self.keys@.contains(key),
            |key: K| self.values@[self.keys@.index_of(key)],
        )
    }

    /// There are finitely many entries.
    pub proof fn lemma_finite(self)
        ensures
            self@.dom().finite(),
    {
        assert(self@.dom() =~= self.keys@.to_set());
        vstd::seq_lib::seq_to_set_is_finite(self.keys@);
    }

    proof fn lemma_at(keys: Seq<K>, i: int)
        requires
            increasing(keys),
            0 <= i < keys.len(),
        ensures
            keys.contains(keys[i]),
            keys.index_of(keys[i]) == i,
    {
        let k = keys.index_of(keys[i]);
        assert(keys[k] == keys[i]);
        if k < i {
            assert(keys[k].ord() < keys[i].ord());
        }
        if i < k {
            assert(keys[i].ord() < keys[k].ord());
        }
    }

    /// An empty map.
    pub fn new() -> (map: Self)
        ensures
            map@ == Map::<K, V>::empty(),
            map.key_seq() == Seq::<K>::empty(),
    {
        let map = OrderedMap { keys: Vec::new(), values: Vec::new() };
        assert(map@ =~= Map::<K, V>::empty());
        map
    }

    /// The number of entries.
    pub fn len(&self) -> (n: usize)
        ensures
            n == self@.len(),
            n == self.key_seq().len(),
            increasing(self.key_seq()),
            self.key_seq().no_duplicates(),
            self@.dom() == self.key_seq().to_set(),
            self@.dom().finite(),
    {
        proof {
            use_type_invariant(self);
            lemma_increasing_no_duplicates(self.keys@);
            assert(self@.dom() =~= self.keys@.to_set());
            self.keys@.unique_seq_to_set();
        }
        self.keys.len()
    }

    fn find(&self, key: &K) -> (at: Result<usize, usize>)
        ensures
            match at {
                Ok(i) => i < self.keys@.len() && self.keys@[i as int] == *key,
                Err(i) => {
                    &&& i <= self.keys@.len()
                    &&& !self.keys@.contains(*key)
                    &&& forall|j: int| 0 <= j < i ==> (#[trigger] self.keys@[j]).ord() < key.ord()
                    &&& forall|j: int|
                        i <= j < self.keys@.len() ==> (#[trigger] self.keys@[j]).ord() > key.ord()
                },
            },
    {
        proof {
            use_type_invariant(self);
        }
        let i: usize = lower_bound(&self.keys, key);
        if i < self.keys.len() {
            match self.keys[i].compare(key) {
                KeyOrder::Equal => {
                    return Ok(i);
                },
                _ => {},
            }
        }
        Err(i)
    }

    /// Whether the map holds an entry for the key.
    pub fn contains_key(&self, key: &K) -> (found: bool)
        ensures
            found == self@.contains_key(*key),
    {
        match self.find(key) {
            Ok(_) => true,
            Err(_) => false,
        }
    }

    /// The value of the key.
    pub fn get(&self, key: &K) -> (value: Option<&V>)
        ensures
            match value {
                Some(v) => self@.contains_key(*key) && *v == self@[*key],
                None => !self@.contains_key(*key),
            },
    {
        proof {
            use_type_invariant(self);
        }
        match self.find(key) {
            Ok(i) => {
                proof {
                    Self::lemma_at(self.keys@, i as int);
                }
                Some(&self.values[i])
            },
            Err(_) => None,
        }
    }

    /// A mutable borrow of the value of the key.
    pub fn get_mut(&mut self, key: &K) -> (value: Option<&mut V>)
        ensures
            match value {
                Some(v) => {
                    &&& old(self)@.contains_key(*key)
                    &&& *v == old(self)@[*key]
                    &&& final(self)@ == old(self)@.insert(*key, *final(v))
                    &&& final(self).key_seq() == old(self).key_seq()
                },
                None => {
                    &&& !old(self)@.contains_key(*key)
                    &&& final(self)@ == old(self)@
                    &&& final(self).key_seq() == old(self).key_seq()
                },
            },
    {
        proof {
            use_type_invariant(&*self);
        }
        match self.find(key) {
            Ok(i) => {
                proof {
                    Self::lemma_at(self.keys@, i as int);
                }
                Some(&mut self.values[i])
            },
            Err(_) => None,
        }
    }

    /// The key at a place in the order.
    pub fn key_at(&self, i: usize) -> (key: K)
        requires
            i < self.key_seq().len(),
        ensures
            key == self.key_seq()[i as int],
            self@.contains_key(key),
    {
        proof {
            use_type_invariant(self);
            Self::lemma_at(self.keys@, i as int);
        }
        self.keys[i]
    }

    /// The value at a place in the order.
    pub fn value_at(&self, i: usize) -> (value: &V)
        requires
            i < self.key_seq().len(),
        ensures
            self@.contains_key(self.key_seq()[i as int]),
            *value == self@[self.key_seq()[i as int]],
    {
        proof {
            use_type_invariant(self);
            Self::lemma_at(self.keys@, i as int);
        }
        &self.values[i]
    }

    /// Sets the value of the key and returns the value it had.
    pub fn insert(&mut self, key: K, value: V) -> (previous: Option<V>)
        ensures
            final(self)@ == old(self)@.insert(key, value),
            match previous {
                Some(v) => old(self)@.contains_key(key) && v == old(self)@[key],
                None => !old(self)@.contains_key(key),
            },
    {
        proof {
            use_type_invariant(&*self);
        }
        let ghost before = *self;
        let at = self.find(&key);
        let mut taken = OrderedMap::new();
        std::mem::swap(self, &mut taken);
        let OrderedMap { mut keys, mut values } = taken;
        match at {
            Ok(i) => {
                proof {
                    Self::lemma_at(keys@, i as int);
                }
                values.push(value);
                let previous = values.swap_remove(i);
                assert(values@ =~= before.values@.update(i as int, value));
                *self = OrderedMap { keys, values };
                proof {
                    assert forall|k: K| before@.contains_key(k) && k != key implies #[trigger] self@[k]
                        == before@[k] by {
                        let j = keys@.index_of(k);
                        assert(keys@[j] == k);
                    }
                    assert(self@ =~= before@.insert(key, value));
                }
                Some(previous)
            },
            Err(i) => {
                keys.insert(i, key);
                values.insert(i, value);
                proof {
                    assert forall|a: int, b: int| 0 <= a < b < keys@.len() implies (
                    #[trigger] keys@[a]).ord() < (#[trigger] keys@[b]).ord() by {
                        if a < i {
                            assert(keys@[a] == before.keys@[a]);
                        }
                        if a > i {
                            assert(keys@[a] == before.keys@[a - 1]);
                        }
                        if b < i {
                            assert(keys@[b] == before.keys@[b]);
                        }
                        if b > i {
                            assert(keys@[b] == before.keys@[b - 1]);
                        }
                    }
                }
                *self = OrderedMap { keys, values };
                proof {
                    assert(keys@[i as int] == key);
                    Self::lemma_at(keys@, i as int);
                    assert forall|k: K| #[trigger] before@.dom().contains(k) implies self@.dom().contains(k)
                        && self@[k] == before@[k] by {
                        let j = before.keys@.index_of(k);
                        assert(before.keys@[j] == k);
                        let m: int = if j < i { j } else { j + 1 };
                        assert(keys@[m] == k);
                        Self::lemma_at(keys@, m);
                    }
                    assert forall|k: K| #[trigger] self@.dom().contains(k) implies k == key
                        || before@.dom().contains(k) by {
                        let m = keys@.index_of(k);
                        assert(keys@[m] == k);
                        if m < i {
                            assert(before.keys@[m] == k);
                        } else if m > i {
                            assert(before.keys@[m - 1] == k);
                        }
                    }
                    assert(self@ =~= before@.insert(key, value));
                }
                None
            },
        }
    }

    /// Takes the entry of the key out.
    pub fn remove(&mut self, key: &K) -> (previous: Option<V>)
        ensures
            final(self)@ == old(self)@.remove(*key),
            match previous {
                Some(v) => old(self)@.contains_key(*key) && v == old(self)@[*key],
                None => !old(self)@.contains_key(*key),
            },
    {
        proof {
            use_type_invariant(&*self);
        }
        let ghost before = *self;
        match self.find(key) {
            Ok(i) => {
                let mut taken = OrderedMap::new();
                std::mem::swap(self, &mut taken);
                let OrderedMap { mut keys, mut values } = taken;
                proof {
                    Self::lemma_at(keys@, i as int);
                }
                let _ = keys.remove(i);
                let previous = values.remove(i);
                proof {
                    assert forall|a: int, b: int| 0 <= a < b < keys@.len() implies (
                    #[trigger] keys@[a]).ord() < (#[trigger] keys@[b]).ord() by {
                        let c: int = if a < i { a } else { a + 1 };
                        let d: int = if b < i { b } else { b + 1 };
                        assert(keys@[a] == before.keys@[c]);
                        assert(keys@[b] == before.keys@[d]);
                    }
                }
                *self = OrderedMap { keys, values };
                proof {
                    assert forall|k: K| #[trigger] before@.dom().contains(k) && k
                        != *key implies self@.dom().contains(k) && self@[k] == before@[k] by {
                        let j = before.keys@.index_of(k);
                        assert(before.keys@[j] == k);
                        let m: int = if j < i { j } else { j - 1 };
                        assert(keys@[m] == k);
                        Self::lemma_at(keys@, m);
                    }
                    assert forall|k: K| #[trigger] self@.dom().contains(k) implies k != *key
                        && before@.dom().contains(k) by {
                        let m = keys@.index_of(k);
                        assert(keys@[m] == k);
                        let j: int = if m < i { m } else { m + 1 };
                        assert(before.keys@[j] == k);
                        Self::lemma_at(before.keys@, j);
                    }
                    assert(self@ =~= before@.remove(*key));
                }
                Some(previous)
            },
            Err(_) => {
                assert(self@ =~= before@.remove(*key));
                None
            },
        }
    }

    /// Keeps the entries of the given keys only.
    pub fn retain(&mut self, keep: &OrderedSet<K>)
        ensures
            final(self)@ == old(self)@.restrict(keep@),
    {
        proof {
            use_type_invariant(&*self);
        }
        let ghost before = *self;
        let ghost all = self.keys@;
        let mut taken = OrderedMap::new();
        std::mem::swap(self, &mut taken);
        let OrderedMap { mut keys, mut values } = taken;
        let mut kept_keys: Vec<K> = Vec::new();
        let mut kept_values: Vec<V> = Vec::new();
        while keys.len() > 0
            invariant
                increasing(all),
                all == before.keys@,
                all.len() == before.values@.len(),
                keys@.len() == values@.len(),
                keys@.len() <= all.len(),
                keys@ == all.take(keys@.len() as int),
                values@ == before.values@.take(keys@.len() as int),
                kept_keys@.len() == kept_values@.len(),
                forall|j: int|
                    0 <= j < kept_keys@.len() ==> keep@.contains(#[trigger] kept_keys@[j])
                        && before@.contains_key(kept_keys@[j]) && before@[kept_keys@[j]]
                        == kept_values@[j],
                forall|i: int|
                    keys@.len() <= i < all.len() && keep@.contains(#[trigger] all[i])
                        ==> kept_keys@.contains(all[i]),
                forall|i: int, j: int|
                    0 <= i < j < kept_keys@.len() ==> (#[trigger] kept_keys@[j]).ord() < (
                    #[trigger] kept_keys@[i]).ord(),
                forall|i: int, j: int|
                    0 <= i < keys@.len() && 0 <= j < kept_keys@.len() ==> (#[trigger] all[i]).ord()
                        < (#[trigger] kept_keys@[j]).ord(),
            decreases keys@.len(),
        {
            let ghost n = keys@.len() - 1;
            let ghost kept_before = kept_keys@;
            proof {
                Self::lemma_at(all, n);
                assert(keys@[n] == all[n] && values@[n] == before.values@[n]);
                assert(before@.contains_key(all[n]) && before@[all[n]] == before.values@[n]);
            }
            let key = keys.pop().unwrap();
            let value = values.pop().unwrap();
            if keep.contains(&key) {
                kept_keys.push(key);
                kept_values.push(value);
                assert(kept_keys@[kept_before.len() as int] == all[n]);
            }
            proof {
                assert(keys@ =~= all.take(n));
                assert(values@ =~= before.values@.take(n));
                assert forall|i: int|
                    keys@.len() <= i < all.len() && keep@.contains(#[trigger] all[i]) implies kept_keys@.contains(
                    all[i],
                ) by {
                    if i > n {
                        assert(kept_before.contains(all[i]));
                        let j = kept_before.index_of(all[i]);
                        assert(kept_keys@[j] == all[i]);
                    }
                }
            }
        }
        let ghost kept = kept_keys@;
        let ghost kept_last = kept_values@;
        while kept_keys.len() > 0
            invariant
                keys@.len() == values@.len(),
                kept_keys@.len() == kept_values@.len(),
                kept.len() == kept_last.len(),
                kept_keys@.len() + keys@.len() == kept.len(),
                kept_keys@ == kept.take(kept_keys@.len() as int),
                kept_values@ == kept_last.take(kept_keys@.len() as int),
                forall|i: int|
                    0 <= i < keys@.len() ==> #[trigger] keys@[i] == kept[kept.len() - 1 - i]
                        && values@[i] == kept_last[kept.len() - 1 - i],
            decreases kept_keys@.len(),
        {
            let ghost n = kept_keys@.len() - 1;
            keys.push(kept_keys.pop().unwrap());
            values.push(kept_values.pop().unwrap());
            assert(kept_keys@ =~= kept.take(n));
            assert(kept_values@ =~= kept_last.take(n));
        }
        proof {
            assert forall|i: int, j: int| 0 <= i < j < keys@.len() implies (#[trigger] keys@[i]).ord()
                < (#[trigger] keys@[j]).ord() by {
                let a = kept.len() - 1 - i;
                let b = kept.len() - 1 - j;
                assert(keys@[i] == kept[a] && keys@[j] == kept[b]);
            }
        }
        *self = OrderedMap { keys, values };
        proof {
            assert forall|k: K| #[trigger] self@.dom().contains(k) implies before@.dom().contains(k)
                && keep@.contains(k) && self@[k] == before@[k] by {
                let i = keys@.index_of(k);
                assert(keys@[i] == k);
                assert(keep@.contains(kept[kept.len() - 1 - i]));
            }
            assert forall|k: K| before@.dom().contains(k) && keep@.contains(k) implies #[trigger] self@.dom().contains(
                k,
            ) by {
                let i = all.index_of(k);
                assert(all[i] == k);
                assert(kept.contains(k));
                let j = kept.index_of(k);
                assert(kept[j] == k);
                assert(keys@[kept.len() - 1 - j] == k);
            }
            assert(self@ =~= before@.restrict(keep@));
        }
    }
}

/// A set that keeps its members in order.
#[verifier::reject_recursive_types(K)]
#[derive(Debug)]
pub struct OrderedSet<K: Key> {
    members: OrderedMap<K, ()>,
}

impl<K: Key> OrderedSet<K> {
    /// The contents.
    pub closed spec fn view(self) -> Set<K> {
        self.members@.dom()
    }

    /// The members in increasing order.
    pub closed spec fn member_seq(self) -> Seq<K> {
        self.members.key_seq()
    }

    /// An empty set.
    pub fn new() -> (set: Self)
        ensures
            set@ == Set::<K>::empty(),
            set.member_seq() == Seq::<K>::empty(),
    {
        let set = OrderedSet { members: OrderedMap::new() };
        assert(set@ =~= Set::<K>::empty());
        set
    }

    /// The number of members.
    pub fn len(&self) -> (n: usize)
        ensures
            n == self@.len(),
            n == self.member_seq().len(),
            increasing(self.member_seq()),
            self.member_seq().no_duplicates(),
            self@ == self.member_seq().to_set(),
            self@.finite(),
    {
        self.members.len()
    }

    /// Whether the key is a member.
    pub fn contains(&self, key: &K) -> (found: bool)
        ensures
            found == self@.contains(*key),
    {
        self.members.contains_key(key)
    }

    /// The member at a place in the order.
    pub fn at(&self, i: usize) -> (key: K)
        requires
            i < self.member_seq().len(),
        ensures
            key == self.member_seq()[i as int],
            self@.contains(key),
    {
        self.members.key_at(i)
    }

    /// Adds the key; tells whether it is new.
    pub fn insert(&mut self, key: K) -> (added: bool)
        ensures
            final(self)@ == old(self)@.insert(key),
            added == !old(self)@.contains(key),
    {
        let previous = self.members.insert(key, ());
        assert(self@ =~= old(self)@.insert(key));
        previous.is_none()
    }

    /// Takes the key out; tells whether it was a member.
    pub fn remove(&mut self, key: &K) -> (removed: bool)
        ensures
            final(self)@ == old(self)@.remove(*key),
            removed == old(self)@.contains(*key),
    {
        let previous = self.members.remove(key);
        assert(self@ =~= old(self)@.remove(*key));
        previous.is_some()
    }
}

} // verus!
