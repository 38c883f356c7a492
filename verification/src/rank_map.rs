//! A map whose keys are ordered by an integer rank, held as a vector in ascending key order.
use crate::types::{lemma_address_ext, lemma_u256_ext, Address, B256};
use vstd::prelude::*;

verus! {

/// Keys that an integer rank orders and tells apart.
pub trait Ranked: Copy {
    /// The rank.
    spec fn rank(&self) -> int;

    /// Whether this key comes before another.
    fn precedes(&self, other: &Self) -> (r: bool)
        ensures
            r == (self.rank() < other.rank()),
    ;

    /// Keys of the same rank are the same.
    proof fn rank_tells_apart(a: Self, b: Self)
        requires
            a.rank() == b.rank(),
        ensures
            a == b,
    ;
}

impl Ranked for Address {
    open spec fn rank(&self) -> int {
        self.value()
    }

    fn precedes(&self, other: &Address) -> (r: bool) {
        *self < *other
    }

    proof fn rank_tells_apart(a: Address, b: Address) {
        lemma_address_ext(a, b);
    }
}

impl Ranked for i32 {
    open spec fn rank(&self) -> int {
        *self as int
    }

    fn precedes(&self, other: &i32) -> (r: bool) {
        *self < *other
    }

    proof fn rank_tells_apart(a: i32, b: i32) {
    }
}

impl Ranked for B256 {
    open spec fn rank(&self) -> int {
        self.word@
    }

    fn precedes(&self, other: &B256) -> (r: bool) {
        self.word < other.word
    }

    proof fn rank_tells_apart(a: B256, b: B256) {
        lemma_u256_ext(a.word, b.word);
    }
}

/// A map from ranked keys to values. Iteration is in ascending key order.
#[verifier::reject_recursive_types(K)]
pub struct RankMap<K: Ranked, V> {
    keys: Vec<K>,
    values: Vec<V>,
}

/// A map from addresses to values.
pub type AddressMap<V> = RankMap<Address, V>;

/// Keys ascend strictly.
pub open spec fn ascending<K: Ranked>(keys: Seq<K>) -> bool {
    forall|i: int, j: int|
        0 <= i < j < keys.len() ==> (#[trigger] keys[i]).rank() < (#[trigger] keys[j]).rank()
}

/// The map that pairs each key with the value at its place.
pub open spec fn paired<K: Ranked, V>(keys: Seq<K>, values: Seq<V>) -> Map<K, V> {
    Map::new(
        |a: K| keys.contains(a),
        |a: K| values[choose|i: int| 0 <= i < keys.len() && keys[i] == a],
    )
}

/// In ascending keys, a key stands in one place.
proof fn lemma_place<K: Ranked, V>(keys: Seq<K>, values: Seq<V>, i: int)
    requires
        ascending(keys),
        0 <= i < keys.len(),
    ensures
        paired(keys, values).dom().contains(keys[i]),
        paired(keys, values)[keys[i]] == values[i],
{
    let k = choose|k: int| 0 <= k < keys.len() && keys[k] == keys[i];
    assert(k == i);
}

impl<K: Ranked, V> RankMap<K, V> {
    #[verifier::type_invariant]
    spec fn inv(self) -> bool {
        &&& self.keys@.len() == self.values@.len()
        &&& ascending(self.keys@)
    }

    /// The keys in ascending order.
    pub closed spec fn key_seq(&self) -> Seq<K> {
        self.keys@
    }
}

impl<K: Ranked, V> View for RankMap<K, V> {
    type V = Map<K, V>;

    closed spec fn view(&self) -> Map<K, V> {
        paired(self.keys@, self.values@)
    }
}

impl<K: Ranked, V> RankMap<K, V> {
    /// The empty map.
    pub fn new() -> (r: RankMap<K, V>)
        ensures
            r@ == Map::<K, V>::empty(),
            r.key_seq() == Seq::<K>::empty(),
    {
        let r = RankMap { keys: Vec::new(), values: Vec::new() };
        assert(r@ =~= Map::<K, V>::empty());
        r
    }

    /// The number of keys below `key`.
    fn lower_bound(&self, key: K) -> (r: usize)
        ensures
            r <= self.keys@.len(),
            forall|i: int| 0 <= i < r ==> (#[trigger] self.keys@[i]).rank() < key.rank(),
            forall|i: int|
                r <= i < self.keys@.len() ==> (#[trigger] self.keys@[i]).rank() >= key.rank(),
    {
        proof {
            use_type_invariant(self);
        }
        let mut lo: usize = 0;
        let mut hi: usize = self.keys.len();
        while lo < hi
            invariant
                lo <= hi <= self.keys@.len(),
                ascending(self.keys@),
                forall|i: int| 0 <= i < lo ==> (#[trigger] self.keys@[i]).rank() < key.rank(),
                forall|i: int|
                    hi <= i < self.keys@.len() ==> (#[trigger] self.keys@[i]).rank()
                        >= key.rank(),
            decreases hi - lo,
        {
            let mid: usize = lo + (hi - lo) / 2;
            if self.keys[mid].precedes(&key) {
                lo = mid + 1;
            } else {
                hi = mid;
            }
        }
        lo
    }

    /// Where `key` stands, if it does.
    fn find(&self, key: K) -> (r: Option<usize>)
        ensures
            match r {
                Some(i) => i < self.keys@.len() && self.keys@[i as int] == key
                    && self@.dom().contains(key) && self@[key] == self.values@[i as int],
                None => !self@.dom().contains(key),
            },
    {
        proof {
            use_type_invariant(self);
        }
        let at: usize = self.lower_bound(key);
        if at < self.keys.len() && !key.precedes(&self.keys[at]) {
            proof {
                K::rank_tells_apart(self.keys@[at as int], key);
            }
            proof {
                lemma_place(self.keys@, self.values@, at as int);
            }
            Some(at)
        } else {
            proof {
                if self.keys@.contains(key) {
                    let k = choose|k: int| 0 <= k < self.keys@.len() && self.keys@[k] == key;
                    assert(k >= at);
                    assert(self.keys@[at as int].rank() <= self.keys@[k].rank());
                    K::rank_tells_apart(self.keys@[at as int], key);
                }
            }
            None
        }
    }

    /// The number of keys.
    pub fn len(&self) -> (r: usize)
        ensures
            r == self.key_seq().len(),
            r == self@.dom().len(),
            self@.dom().finite(),
            ascending(self.key_seq()),
            forall|a: K| self.key_seq().contains(a) <==> self@.dom().contains(a),
    {
        proof {
            use_type_invariant(self);
            lemma_dom(self.keys@, self.values@);
        }
        self.keys.len()
    }

    /// Whether the map has no key.
    pub fn is_empty(&self) -> (r: bool)
        ensures
            r == (self.key_seq().len() == 0),
    {
        self.keys.len() == 0
    }

    /// Whether `key` has a value.
    pub fn contains_key(&self, key: K) -> (r: bool)
        ensures
            r == self@.dom().contains(key),
    {
        self.find(key).is_some()
    }

    /// The value of `key`.
    pub fn get(&self, key: K) -> (r: Option<&V>)
        ensures
            match r {
                Some(v) => self@.dom().contains(key) && *v == self@[key],
                None => !self@.dom().contains(key),
            },
    {
        proof {
            use_type_invariant(self);
        }
        match self.find(key) {
            Some(i) => Some(&self.values[i]),
            None => None,
        }
    }

    /// The `i`-th key in ascending order.
    pub fn key_at(&self, i: usize) -> (r: K)
        requires
            i < self.key_seq().len(),
        ensures
            r == self.key_seq()[i as int],
            self@.dom().contains(r),
    {
        proof {
            use_type_invariant(self);
            lemma_place(self.keys@, self.values@, i as int);
        }
        self.keys[i]
    }

    /// The value of the `i`-th key in ascending order.
    pub fn value_at(&self, i: usize) -> (r: &V)
        requires
            i < self.key_seq().len(),
        ensures
            *r == self@[self.key_seq()[i as int]],
    {
        proof {
            use_type_invariant(self);
            lemma_place(self.keys@, self.values@, i as int);
        }
        &self.values[i]
    }

    /// Set the value of `key`.
    pub fn insert(&mut self, key: K, value: V)
        ensures
            final(self)@ == old(self)@.insert(key, value),
    {
        proof {
            use_type_invariant(&*self);
        }
        let ghost (ks, vs) = (self.keys@, self.values@);
        let at: usize = self.lower_bound(key);
        let found = self.find(key).is_some();
        let mut taken = RankMap::new();
        std::mem::swap(self, &mut taken);
        let mut keys: Vec<K> = taken.keys;
        let mut values: Vec<V> = taken.values;
        if found {
            proof {
                let k = choose|k: int| 0 <= k < ks.len() && ks[k] == key;
                assert(ks[at as int].rank() <= ks[k].rank());
                assert(k == at) by {
                    if at < k {
                        assert(ks[at as int].rank() < ks[k].rank());
                    }
                }
            }
            values.set(at, value);
            proof {
                let m = paired(ks, vs.update(at as int, value));
                assert forall|a: K| paired(ks, vs).insert(key, value).dom().contains(a)
                    implies #[trigger] m[a] == paired(ks, vs).insert(key, value)[a] by {
                    let i = choose|i: int| 0 <= i < ks.len() && ks[i] == a;
                    lemma_place(ks, vs, i);
                    lemma_place(ks, vs.update(at as int, value), i);
                }
                assert(m =~= paired(ks, vs).insert(key, value));
            }
        } else {
            proof {
                assert(forall|i: int| 0 <= i < ks.len() ==> ks[i] != key);
                assert forall|i: int| at <= i < ks.len() implies (#[trigger] ks[i]).rank()
                    > key.rank() by {
                    if ks[i].rank() == key.rank() {
                        K::rank_tells_apart(ks[i], key);
                    }
                }
            }
            keys.insert(at, key);
            values.insert(at, value);
            proof {
                let nk = ks.insert(at as int, key);
                let nv = vs.insert(at as int, value);
                assert(ascending(nk));
                let m = paired(nk, nv);
                let target = paired(ks, vs).insert(key, value);
                assert forall|a: K| m.dom().contains(a) <==> target.dom().contains(a) by {
                    if ks.contains(a) {
                        let i = choose|i: int| 0 <= i < ks.len() && ks[i] == a;
                        assert(nk[if i < at {
                            i
                        } else {
                            i + 1
                        }] == a);
                    }
                    if a == key {
                        assert(nk[at as int] == a);
                    }
                    if nk.contains(a) && a != key {
                        let i = choose|i: int| 0 <= i < nk.len() && nk[i] == a;
                        assert(ks[if i < at {
                            i
                        } else {
                            i - 1
                        }] == a);
                    }
                }
                assert forall|a: K| m.dom().contains(a) implies #[trigger] m[a]
                    == target[a] by {
                    let i = choose|i: int| 0 <= i < nk.len() && nk[i] == a;
                    lemma_place(nk, nv, i);
                    if i < at {
                        lemma_place(ks, vs, i);
                    } else if i > at {
                        lemma_place(ks, vs, i - 1);
                    }
                }
                assert(m =~= target);
            }
        }
        *self = RankMap { keys, values };
    }

    /// Take `key` and its value out.
    pub fn remove(&mut self, key: K) -> (r: Option<V>)
        ensures
            final(self)@ == old(self)@.remove(key),
            match r {
                Some(v) => old(self)@.dom().contains(key) && v == old(self)@[key],
                None => !old(self)@.dom().contains(key),
            },
    {
        proof {
            use_type_invariant(&*self);
        }
        let ghost (ks, vs) = (self.keys@, self.values@);
        match self.find(key) {
            None => {
                assert(old(self)@ =~= old(self)@.remove(key));
                None
            },
            Some(at) => {
                let mut taken = RankMap::new();
                std::mem::swap(self, &mut taken);
                let mut keys: Vec<K> = taken.keys;
                let mut values: Vec<V> = taken.values;
                keys.remove(at);
                let value = values.remove(at);
                proof {
                    let nk = ks.remove(at as int);
                    let nv = vs.remove(at as int);
                    assert(ascending(nk));
                    let m = paired(nk, nv);
                    let target = paired(ks, vs).remove(key);
                    assert forall|a: K| m.dom().contains(a) <==> target.dom().contains(a) by {
                        if ks.contains(a) && a != key {
                            let i = choose|i: int| 0 <= i < ks.len() && ks[i] == a;
                            assert(nk[if i < at {
                                i
                            } else {
                                i - 1
                            }] == a);
                        }
                        if nk.contains(a) {
                            let i = choose|i: int| 0 <= i < nk.len() && nk[i] == a;
                            let j = if i < at {
                                i
                            } else {
                                i + 1
                            };
                            assert(ks[j] == a);
                            assert(j != at);
                        }
                    }
                    assert forall|a: K| m.dom().contains(a) implies #[trigger] m[a]
                        == target[a] by {
                        let i = choose|i: int| 0 <= i < nk.len() && nk[i] == a;
                        lemma_place(nk, nv, i);
                        if i < at {
                            lemma_place(ks, vs, i);
                        } else {
                            lemma_place(ks, vs, i + 1);
                        }
                    }
                    assert(m =~= target);
                }
                *self = RankMap { keys, values };
                Some(value)
            },
        }
    }
}

/// The keys are the map's domain.
proof fn lemma_dom<K: Ranked, V>(keys: Seq<K>, values: Seq<V>)
    requires
        ascending(keys),
    ensures
        paired(keys, values).dom() == keys.to_set(),
        keys.to_set().finite(),
        keys.to_set().len() == keys.len(),
{
    assert(paired(keys, values).dom() =~= keys.to_set());
    assert(keys.no_duplicates());
    keys.unique_seq_to_set();
}

impl<K: Ranked, V: Copy> RankMap<K, V> {
    /// A copy of the map.
    pub fn duplicate(&self) -> (r: RankMap<K, V>)
        ensures
            r@ == self@,
            r.key_seq() == self.key_seq(),
    {
        proof {
            use_type_invariant(self);
        }
        let mut keys: Vec<K> = Vec::new();
        let mut values: Vec<V> = Vec::new();
        let mut i: usize = 0;
        while i < self.keys.len()
            invariant
                i <= self.keys@.len(),
                self.keys@.len() == self.values@.len(),
                keys@ == self.keys@.take(i as int),
                values@ == self.values@.take(i as int),
            decreases self.keys@.len() - i,
        {
            keys.push(self.keys[i]);
            values.push(self.values[i]);
            i += 1;
            assert(keys@ =~= self.keys@.take(i as int));
            assert(values@ =~= self.values@.take(i as int));
        }
        assert(keys@ =~= self.keys@);
        assert(values@ =~= self.values@);
        RankMap { keys, values }
    }
}

} // verus!
