//! An insertion-ordered associative container.
//!
//! `OrderedHashMap` pairs a hash-based index (key to value) with a sequence
//! of keys in first-insertion order.  Lookup, insertion and removal go
//! through the index; iteration follows the sequence.  The two structures
//! are kept consistent by every operation: the sequence holds exactly the
//! live keys, each once, so their entries are in bijection with the index.

use vstd::prelude::*;
use vstd::laws_eq::obeys_concrete_eq;
use vstd::std_specs::hash::builds_valid_hashers;
use vstd::std_specs::hash::obeys_key_model;
use core::hash::BuildHasher;
use core::hash::Hash;
use std::collections::hash_map::RandomState;
use std::collections::HashMap;

verus! {

/// The hashing part of the contract a caller owes on the key type and the
/// hash strategy: hashing a key is a function of the key's value
/// (`obeys_key_model`), and the hash builder hands out hashers that agree
/// with one another (`builds_valid_hashers`; the default `RandomState`
/// does).  A strategy that breaks this gives inconsistent lookups; the
/// container cannot check it at run time, so every operation that consults
/// the index requires it.  Operations that also compare or clone keys name
/// `obeys_concrete_eq` or `clone_keeps_value` beside it, each only where it
/// is used.
pub open spec fn hash_model_holds<K, S>() -> bool {
    &&& obeys_key_model::<K>()
    &&& builds_valid_hashers::<S>()
}

/// Cloning a `T` yields a value equal to the original.  Holds of the
/// primitive types; a hand-written `Clone` whose `ensures` says the clone
/// equals the source satisfies it too.
pub open spec fn clone_keeps_value<T: Clone>() -> bool {
    forall|x: T, y: T| #[trigger] cloned::<T>(x, y) ==> y == x
}

/// Whether an index holds no entries at all.
pub open spec fn index_is_empty<K, V>(m: Map<K, V>) -> bool {
    m == Map::<K, V>::empty()
}

/// The entries of an order sequence `o` read through an index `m`, as
/// `(key, value)` pairs in the order of `o`.
pub open spec fn pairs_of<K, V>(o: Seq<K>, m: Map<K, V>) -> Seq<(K, V)> {
    Seq::new(o.len(), |i: int| (o[i], m[o[i]]))
}

/// What one insertion does to the abstract state `(order, index)`: a new key
/// goes to the end of the order; an existing key keeps its place and only
/// its value changes.
pub open spec fn insert_step<K, V>(o: Seq<K>, m: Map<K, V>, k: K, v: V) -> (Seq<K>, Map<K, V>) {
    if m.contains_key(k) {
        (o, m.insert(k, v))
    } else {
        (o.push(k), m.insert(k, v))
    }
}

/// A mapping from keys to values that additionally remembers the order in
/// which keys were first inserted.
///
/// Iteration follows that order; re-inserting a live key updates its value
/// in place and keeps its position; removing a key and inserting it again
/// moves it to the end.
#[verifier::reject_recursive_types(S)]
pub struct OrderedHashMap<K, V, S = RandomState> {
    base: HashMap<K, V, S>,
    order_list: Vec<K>,
    cap_floor: usize,
}

impl<K, V, S> OrderedHashMap<K, V, S> {
    /// The keys, in first-insertion order.
    pub closed spec fn order(self) -> Seq<K> {
        self.order_list@
    }

    /// The key-to-value index.
    pub closed spec fn index(self) -> Map<K, V> {
        self.base@
    }

    /// The live entries, in first-insertion order.
    pub open spec fn pairs(self) -> Seq<(K, V)> {
        pairs_of(self.order(), self.index())
    }

    /// The number of live entries.
    pub open spec fn spec_len(self) -> nat {
        self.order().len()
    }

    /// The storage guaranteed at construction: `capacity()` never reports
    /// less.  `with_capacity` and `with_capacity_and_hasher` set it to the
    /// capacity they were asked for; the other constructors, which reserve
    /// nothing, set it to zero; insertion and removal leave it unchanged.
    pub closed spec fn capacity_floor(self) -> usize {
        self.cap_floor
    }

    /// The structural invariant: the order sequence holds each live key
    /// exactly once, so its entries are in bijection with the index's keys.
    pub open spec fn well_formed(self) -> bool {
        &&& self.order().no_duplicates()
        &&& self.index().dom() == self.order().to_set()
    }
}

/// A container whose two structures are both empty is well-formed.
proof fn lemma_empty_state_well_formed<K, V, S>(m: OrderedHashMap<K, V, S>)
    requires
        m.order() == Seq::<K>::empty(),
        m.index() == Map::<K, V>::empty(),
    ensures
        m.well_formed(),
{
    assert(m.order().to_set() =~= Set::<K>::empty());
    assert(m.index().dom() =~= m.order().to_set());
}

impl<K, V> OrderedHashMap<K, V, RandomState> {
    /// Creates an empty `OrderedHashMap`.
    ///
    /// No storage is reserved until the first insertion.
    pub fn new() -> (m: OrderedHashMap<K, V, RandomState>)
        ensures
            m.order() == Seq::<K>::empty(),
            m.index() == Map::<K, V>::empty(),
            m.well_formed(),
            m.capacity_floor() == 0,
    {
        let m = OrderedHashMap { base: HashMap::new(), order_list: Vec::new(), cap_floor: 0 };
        proof {
            lemma_empty_state_well_formed(m);
        }
        m
    }

    /// Creates an empty `OrderedHashMap` with storage reserved for at least
    /// `capacity` entries in both internal structures.
    pub fn with_capacity(capacity: usize) -> (m: OrderedHashMap<K, V, RandomState>)
        ensures
            m.order() == Seq::<K>::empty(),
            m.index() == Map::<K, V>::empty(),
            m.well_formed(),
            m.capacity_floor() == capacity,
    {
        let m = OrderedHashMap {
            base: HashMap::with_capacity(capacity),
            order_list: Vec::with_capacity(capacity),
            cap_floor: capacity,
        };
        proof {
            lemma_empty_state_well_formed(m);
        }
        m
    }
}

/// Relies on `HashMap::with_hasher`: the returned map is empty and uses the
/// given hash builder.
#[verifier::external_body]
fn hash_map_with_hasher<K, V, S>(hash_builder: S) -> (m: HashMap<K,V,S>)
    ensures
        index_is_empty(m@),
{
    HashMap::with_hasher(hash_builder)
}

/// Relies on `HashMap::with_capacity_and_hasher`: the returned map is empty,
/// uses the given hash builder, and reserves room for at least `capacity`
/// entries.
#[verifier::external_body]
fn hash_map_with_capacity_and_hasher<K, V, S>(capacity: usize, hash_builder: S) -> (m: HashMap<K,V,S>)
    ensures
        index_is_empty(m@),
{
    HashMap::with_capacity_and_hasher(capacity, hash_builder)
}

/// Relies on `Vec::capacity`: the number of elements the vector can hold
/// without reallocating, which is never below its length.
#[verifier::external_body]
fn vec_capacity<T>(v: &Vec<T>) -> (n: usize)
    ensures
        n >= v@.len(),
{
    v.capacity()
}

impl<K, V, S> OrderedHashMap<K, V, S> {
    /// Creates an empty `OrderedHashMap` that hashes keys with the given
    /// hash builder.
    pub fn with_hasher(hash_builder: S) -> (m: OrderedHashMap<K, V, S>)
        ensures
            m.order() == Seq::<K>::empty(),
            m.index() == Map::<K, V>::empty(),
            m.well_formed(),
            m.capacity_floor() == 0,
    {
        let m = OrderedHashMap {
            base: hash_map_with_hasher(hash_builder),
            order_list: Vec::new(),
            cap_floor: 0,
        };
        proof {
            lemma_empty_state_well_formed(m);
        }
        m
    }

    /// Creates an empty `OrderedHashMap` with storage reserved for at least
    /// `capacity` entries, hashing keys with the given hash builder.
    pub fn with_capacity_and_hasher(capacity: usize, hash_builder: S) -> (m: OrderedHashMap<
        K,
        V,
        S,
    >)
        ensures
            m.order() == Seq::<K>::empty(),
            m.index() == Map::<K, V>::empty(),
            m.well_formed(),
            m.capacity_floor() == capacity,
    {
        let m = OrderedHashMap {
            base: hash_map_with_capacity_and_hasher(capacity, hash_builder),
            order_list: Vec::with_capacity(capacity),
            cap_floor: capacity,
        };
        proof {
            lemma_empty_state_well_formed(m);
        }
        m
    }

    /// Returns the number of entries the container can hold without
    /// reallocating its order sequence, the binding structure: the order
    /// sequence's reported capacity, raised to the floor guaranteed at
    /// construction should the report ever fall below it.  Never below the
    /// number of live entries, and never below the capacity this container
    /// was built with.
    pub fn capacity(&self) -> (n: usize)
        ensures
            n >= self.spec_len(),
            n >= self.capacity_floor(),
    {
        let c = vec_capacity(&self.order_list);
        if c >= self.cap_floor {
            c
        } else {
            self.cap_floor
        }
    }

    /// Returns the number of live entries.
    pub fn len(&self) -> (n: usize)
        ensures
            n == self.spec_len(),
            self.well_formed() ==> n == self.index().dom().len(),
    {
        proof {
            if self.well_formed() {
                self.order().unique_seq_to_set();
            }
        }
        self.order_list.len()
    }

    /// Returns true when the container holds no entries.
    pub fn is_empty(&self) -> (b: bool)
        ensures
            b <==> self.spec_len() == 0,
    {
        self.order_list.len() == 0
    }
}

/// Finds the position of `key` in `list`, scanning from the front.
fn first_position<K: PartialEq>(list: &Vec<K>, key: &K) -> (i: usize)
    requires
        obeys_concrete_eq::<K>(),
        list@.contains(*key),
    ensures
        list@.index_of_first(*key) == Some(i as int),
        0 <= i < list@.len(),
        list@[i as int] == *key,
        forall|j: int| 0 <= j < i ==> list@[j] != *key,
{
    let mut i: usize = 0;
    while i < list.len()
        invariant
            obeys_concrete_eq::<K>(),
            list@.contains(*key),
            0 <= i <= list@.len(),
            forall|j: int| 0 <= j < i ==> list@[j] != *key,
        decreases list@.len() - i,
    {
        if list[i].eq(key) {
            proof {
                reveal(obeys_concrete_eq);
                list@.index_of_first_ensures(*key);
            }
            return i;
        }
        proof {
            reveal(obeys_concrete_eq);
        }
        i += 1;
    }
    proof {
        assert(false);
    }
    unreached()
}

impl<K: Eq + Hash + Clone, V, S: BuildHasher> OrderedHashMap<K, V, S> {
    /// Returns a reference to the value of `key`, or `None` when `key` is
    /// not live.  Read-only: neither structure changes.
    pub fn get(&self, key: &K) -> (r: Option<&V>)
        requires
            self.well_formed(),
            hash_model_holds::<K, S>(),
        ensures
            match r {
                Some(v) => self.index().contains_key(*key) && *v == self.index()[*key],
                None => !self.index().contains_key(*key),
            },
    {
        self.base.get(key)
    }

    /// Returns true when `key` is live.  Read-only.
    pub fn contains(&self, key: &K) -> (b: bool)
        requires
            self.well_formed(),
            hash_model_holds::<K, S>(),
        ensures
            b == self.index().contains_key(*key),
            b == self.order().contains(*key),
    {
        proof {
            assert(self.index().dom().contains(*key) == self.order().to_set().contains(*key));
        }
        self.base.contains_key(key)
    }

    /// Inserts `key` with `value`.
    ///
    /// A new key is appended to the order; an existing key keeps its
    /// position and only its value changes.  Returns the previous value of
    /// `key`, or `None` when `key` was new.
    pub fn insert(&mut self, key: K, value: V) -> (prev: Option<V>)
        requires
            old(self).well_formed(),
            hash_model_holds::<K, S>(),
            clone_keeps_value::<K>(),
        ensures
            final(self).well_formed(),
            final(self).capacity_floor() == old(self).capacity_floor(),
            final(self).index() == old(self).index().insert(key, value),
            old(self).index().contains_key(key) ==> {
                &&& final(self).order() == old(self).order()
                &&& prev == Some(old(self).index()[key])
            },
            !old(self).index().contains_key(key) ==> {
                &&& final(self).order() == old(self).order().push(key)
                &&& prev == None::<V>
            },
            (final(self).order(), final(self).index()) == insert_step(
                old(self).order(),
                old(self).index(),
                key,
                value,
            ),
    {
        let dup = key.clone();
        proof {
            assert(cloned::<K>(key, dup));
            assert(dup == key);
        }
        let prev = self.base.insert(key, value);
        if prev.is_none() {
            self.order_list.push(dup);
            proof {
                let o0 = old(self).order();
                assert(forall|i: int| 0 <= i < o0.len() ==> o0[i] != key) by {
                    assert(!o0.to_set().contains(key));
                    assert(forall|i: int| 0 <= i < o0.len() ==> o0.to_set().contains(#[trigger] o0[i]));
                }
                assert(self.order().no_duplicates());
                assert(self.order().to_set() =~= o0.to_set().insert(key)) by {
                    assert(forall|x: K| self.order().contains(x) ==> #[trigger] o0.to_set().insert(key).contains(x)) by {
                        assert(forall|i: int| 0 <= i < self.order().len() ==> self.order()[i] == (if i < o0.len() { o0[i] } else { key }));
                    }
                    assert(forall|x: K| o0.to_set().insert(key).contains(x) ==> #[trigger] self.order().contains(x)) by {
                        assert(forall|i: int| 0 <= i < o0.len() ==> self.order()[i] == o0[i]);
                        assert(self.order()[o0.len() as int] == key);
                    }
                }
                assert(self.index().dom() =~= self.order().to_set());
            }
        } else {
            proof {
                assert(self.index().dom() =~= self.order().to_set());
            }
        }
        prev
    }

    /// Removes `key` and returns its value, or returns `None` when `key` is
    /// not live.  The relative order of all remaining keys is preserved.
    pub fn remove(&mut self, key: &K) -> (removed: Option<V>)
        requires
            old(self).well_formed(),
            hash_model_holds::<K, S>(),
            obeys_concrete_eq::<K>(),
        ensures
            final(self).well_formed(),
            final(self).capacity_floor() == old(self).capacity_floor(),
            final(self).index() == old(self).index().remove(*key),
            final(self).order() == old(self).order().remove_value(*key),
            old(self).index().contains_key(*key) ==> removed == Some(old(self).index()[*key]),
            !old(self).index().contains_key(*key) ==> {
                &&& removed == None::<V>
                &&& final(self).order() == old(self).order()
                &&& final(self).index() == old(self).index()
            },
    {
        let removed = self.base.remove(key);
        if removed.is_some() {
            proof {
                assert(old(self).order().to_set().contains(*key));
            }
            let i = first_position(&self.order_list, key);
            self.order_list.remove(i);
            proof {
                let o0 = old(self).order();
                let o1 = self.order();
                o0.index_of_first_ensures(*key);
                assert(o1 == o0.remove(i as int));
                assert(o1 == o0.remove_value(*key));
                o0.remove_ensures(i as int);
                assert(o1.no_duplicates()) by {
                    assert(forall|p: int, q: int|
                        0 <= p < q < o1.len() ==> o1[p] != o1[q]) by {
                        assert(forall|p: int| 0 <= p < o1.len() ==> o1[p] == (if p < i {
                            o0[p]
                        } else {
                            o0[p + 1]
                        }));
                    }
                }
                assert forall|x: K| o1.contains(x) implies #[trigger] o0.to_set().remove(
                    *key,
                ).contains(x) by {
                    let p = choose|p: int| 0 <= p < o1.len() && o1[p] == x;
                    if p < i {
                        assert(x == o0[p]);
                        assert(x != *key);
                    } else {
                        assert(x == o0[p + 1]);
                        assert(x != *key);
                    }
                }
                assert forall|x: K| o0.to_set().remove(*key).contains(x) implies #[trigger] o1.contains(
                    x,
                ) by {
                    let q = choose|q: int| 0 <= q < o0.len() && o0[q] == x;
                    assert(q != i);
                    if q < i {
                        assert(o1[q] == x);
                    } else {
                        assert(o1[q - 1] == x);
                    }
                }
                assert(o1.to_set() =~= o0.to_set().remove(*key));
                assert(self.index().dom() =~= self.order().to_set());
            }
        } else {
            proof {
                assert(final(self).index() =~= old(self).index());
                assert(!old(self).order().contains(*key)) by {
                    assert(forall|p: int|
                        0 <= p < old(self).order().len() ==> old(self).order().to_set().contains(
                            #[trigger] old(self).order()[p],
                        ));
                }
                old(self).order().index_of_first_ensures(*key);
                assert(old(self).order().remove_value(*key) == old(self).order());
                assert(final(self).index() == old(self).index().remove(*key)) by {
                    assert(old(self).index().remove(*key) =~= old(self).index());
                }
                assert(self.index().dom() =~= self.order().to_set());
            }
        }
        removed
    }

    /// Returns the live entries as `(key, value)` pairs, in first-insertion
    /// order, cloned into a fresh vector.  The container itself is
    /// untouched, so the snapshot stays valid across later mutation.
    pub fn iter_in_order(&self) -> (r: Vec<(K, V)>) where V: Clone
        requires
            self.well_formed(),
            hash_model_holds::<K, S>(),
            clone_keeps_value::<K>(),
        ensures
            r@.len() == self.pairs().len(),
            forall|i: int|
                0 <= i < r@.len() ==> (#[trigger] r@[i]).0 == self.pairs()[i].0 && cloned::<V>(
                    self.pairs()[i].1,
                    r@[i].1,
                ),
            clone_keeps_value::<V>() ==> r@ == self.pairs(),
    {
        let mut out: Vec<(K, V)> = Vec::new();
        let mut i: usize = 0;
        while i < self.order_list.len()
            invariant
                self.well_formed(),
                hash_model_holds::<K, S>(),
                clone_keeps_value::<K>(),
                0 <= i <= self.order().len(),
                out@.len() == i,
                forall|j: int|
                    0 <= j < i ==> (#[trigger] out@[j]).0 == self.pairs()[j].0 && cloned::<V>(
                        self.pairs()[j].1,
                        out@[j].1,
                    ),
            decreases self.order().len() - i,
        {
            let k = self.order_list[i].clone();
            proof {
                assert(cloned::<K>(self.order()[i as int], k));
                assert(k == self.order()[i as int]);
                assert(self.order().contains(k));
                assert(self.order().to_set().contains(k));
            }
            let v = match self.base.get(&k) {
                Some(v) => v.clone(),
                None => unreached(),
            };
            out.push((k, v));
            i += 1;
        }
        proof {
            if clone_keeps_value::<V>() {
                assert(out@ =~= self.pairs());
            }
        }
        out
    }
}

impl<K: PartialEq + Clone, V: Clone, S: Clone> Clone for OrderedHashMap<K, V, S> {
    /// Duplicates the container.  The copy shares no storage with the
    /// original; when cloning keys keeps their value it holds the same keys
    /// in the same order, and each value is a clone of the original's.  The
    /// copy carries no construction-capacity guarantee: it reserves room
    /// for its contents, not for the capacity the original was built with.
    fn clone(&self) -> (res: Self)
        ensures
            res.index() == self.index(),
            res.order().len() == self.order().len(),
            forall|i: int|
                0 <= i < self.order().len() ==> cloned::<K>(
                    self.order()[i],
                    #[trigger] res.order()[i],
                ),
            res.capacity_floor() == 0,
            clone_keeps_value::<K>() ==> {
                &&& res.order() == self.order()
                &&& (self.well_formed() ==> res.well_formed())
            },
    {
        let res = OrderedHashMap {
            base: self.base.clone(),
            order_list: self.order_list.clone(),
            cap_floor: 0,
        };
        proof {
            if clone_keeps_value::<K>() {
                assert(res.order() =~= self.order());
            }
        }
        res
    }
}

impl<K, V, S: Default> Default for OrderedHashMap<K, V, S> {
    /// Creates an empty `OrderedHashMap` with the `Default` value for the
    /// hash builder.
    fn default() -> (m: OrderedHashMap<K, V, S>)
        ensures
            m.order() == Seq::<K>::empty(),
            m.index() == Map::<K, V>::empty(),
            m.well_formed(),
            m.capacity_floor() == 0,
    {
        OrderedHashMap::with_hasher(Default::default())
    }
}

} // verus!
