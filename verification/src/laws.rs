//! The container's laws, stated and proved over the same spec functions
//! that the operations' contracts use.

use vstd::prelude::*;
use crate::map::insert_step;
use crate::map::pairs_of;
use crate::map::OrderedHashMap;

verus! {

/// Bijection: in a well-formed container the entries of the order sequence
/// and the keys of the index are the same keys, with no duplicates, and
/// there are as many order entries as index keys.  Every operation keeps
/// the container well-formed, so this holds after every operation.
pub proof fn lemma_order_index_bijection<K, V, S>(m: OrderedHashMap<K, V, S>)
    requires
        m.well_formed(),
    ensures
        m.order().no_duplicates(),
        m.order().to_set() == m.index().dom(),
        forall|k: K| #[trigger] m.index().dom().contains(k) <==> m.order().contains(k),
        m.order().len() == m.index().dom().len(),
{
    m.order().unique_seq_to_set();
}

/// Order stability on removal: removing the key at position `i` keeps every
/// other key, and any two of them keep their relative order.  The positions
/// shift down by one past `i` and are otherwise unchanged.
pub proof fn lemma_remove_keeps_relative_order<K>(s: Seq<K>, k: K, p: int, q: int)
    requires
        s.no_duplicates(),
        s.contains(k),
        0 <= p < q < s.len(),
        s[p] != k,
        s[q] != k,
    ensures
        ({
            let i = s.index_of_first(k).unwrap();
            let t = s.remove_value(k);
            let p2 = if p < i {
                p
            } else {
                p - 1
            };
            let q2 = if q < i {
                q
            } else {
                q - 1
            };
            &&& t.len() == s.len() - 1
            &&& 0 <= p2 < q2 < t.len()
            &&& t[p2] == s[p]
            &&& t[q2] == s[q]
        }),
{
    s.index_of_first_ensures(k);
    let i = s.index_of_first(k).unwrap();
    s.remove_ensures(i);
    assert(p != i && q != i);
}

/// Re-insertion moves to the end: removing `k` and appending it again, as
/// `remove` followed by `insert` of an absent key does, places `k` at the
/// last position of the order and nowhere else, and keeps the order free of
/// duplicates.
pub proof fn lemma_reinsert_moves_to_end<K>(s: Seq<K>, k: K)
    requires
        s.no_duplicates(),
        s.contains(k),
    ensures
        ({
            let t = s.remove_value(k).push(k);
            &&& t.len() == s.len()
            &&& t.last() == k
            &&& t.index_of_first(k) == Some(t.len() - 1)
            &&& t.no_duplicates()
        }),
{
    s.index_of_first_ensures(k);
    let i = s.index_of_first(k).unwrap();
    s.remove_ensures(i);
    let r = s.remove_value(k);
    let t = r.push(k);
    assert(forall|j: int| 0 <= j < r.len() ==> r[j] == (if j < i {
        s[j]
    } else {
        s[j + 1]
    }));
    assert(forall|j: int| 0 <= j < r.len() ==> r[j] != k);
    assert(t.last() == k);
    assert(t.no_duplicates());
    t.index_of_first_ensures(k);
    assert(t.contains(k)) by {
        assert(t[t.len() - 1] == k);
    }
    let w = t.index_of_first(k).unwrap();
    assert(t[w] == k);
    assert(w == t.len() - 1);
}

/// The abstract state after a whole sequence of insertions, each performed
/// as `insert` describes: entry after entry, from the front.
pub open spec fn run_inserts<K, V>(o: Seq<K>, m: Map<K, V>, entries: Seq<(K, V)>) -> (Seq<K>, Map<
    K,
    V,
>)
    decreases entries.len(),
{
    if entries.len() == 0 {
        (o, m)
    } else {
        let next = insert_step(o, m, entries.first().0, entries.first().1);
        run_inserts(next.0, next.1, entries.drop_first())
    }
}

/// Round trip, generalised for the induction: inserting entries whose keys
/// are distinct and all new appends exactly those keys to the order, and
/// the entries read back in order are the old ones followed by the new.
pub proof fn lemma_run_inserts_appends<K, V>(o: Seq<K>, m: Map<K, V>, entries: Seq<(K, V)>)
    requires
        entries.map_values(|e: (K, V)| e.0).no_duplicates(),
        forall|j: int|
            0 <= j < entries.len() ==> !o.contains((#[trigger] entries[j]).0) && !m.contains_key(
                entries[j].0,
            ),
    ensures
        ({
            let end = run_inserts(o, m, entries);
            &&& end.0 == o + entries.map_values(|e: (K, V)| e.0)
            &&& pairs_of(end.0, end.1) == pairs_of(o, m) + entries
        }),
    decreases entries.len(),
{
    let keys = entries.map_values(|e: (K, V)| e.0);
    let end = run_inserts(o, m, entries);
    if entries.len() == 0 {
        assert(end.0 =~= o + keys);
        assert(pairs_of(end.0, end.1) =~= pairs_of(o, m) + entries);
    } else {
        let k0 = entries.first().0;
        let v0 = entries.first().1;
        let o1 = o.push(k0);
        let m1 = m.insert(k0, v0);
        assert(!m.contains_key(k0));
        assert(run_inserts(o, m, entries) == run_inserts(o1, m1, entries.drop_first()));
        let rest = entries.drop_first();
        assert(rest.map_values(|e: (K, V)| e.0) =~= keys.drop_first());
        assert(rest.map_values(|e: (K, V)| e.0).no_duplicates());
        assert(forall|j: int|
            0 <= j < rest.len() ==> !o1.contains((#[trigger] rest[j]).0) && !m1.contains_key(
                rest[j].0,
            )) by {
            assert(forall|j: int| 0 <= j < rest.len() ==> rest[j] == entries[j + 1]);
            assert(forall|j: int|
                0 <= j < rest.len() ==> (#[trigger] rest[j]).0 != k0 && !o.contains(rest[j].0)
                    && !m.contains_key(rest[j].0)) by {
                assert(forall|j: int| 0 <= j < keys.len() ==> keys[j] == (#[trigger] entries[j]).0);
            }
            assert(forall|x: K| o1.contains(x) ==> o.contains(x) || x == k0) by {
                assert(forall|p: int| 0 <= p < o1.len() ==> o1[p] == (if p < o.len() {
                    o[p]
                } else {
                    k0
                }));
            }
        }
        lemma_run_inserts_appends(o1, m1, rest);
        assert(end.0 =~= o + keys) by {
            assert(end.0 == o1 + rest.map_values(|e: (K, V)| e.0));
        }
        assert(pairs_of(end.0, end.1) =~= pairs_of(o, m) + entries) by {
            assert(pairs_of(end.0, end.1) == pairs_of(o1, m1) + rest);
            assert(pairs_of(o1, m1) =~= pairs_of(o, m).push((k0, v0))) by {
                assert(forall|p: int| 0 <= p < o.len() ==> o1[p] == o[p] && o[p] != k0);
                assert(forall|p: int| 0 <= p < o.len() ==> m1[#[trigger] o1[p]] == m[o[p]]);
                assert(o1[o.len() as int] == k0 && m1[k0] == v0);
            }
        }
    }
}

/// Round trip: inserting entries with pairwise-distinct keys into an empty
/// container yields exactly those entries, in insertion order, when read
/// back through the order sequence.
pub proof fn lemma_insert_round_trip<K, V>(entries: Seq<(K, V)>)
    requires
        entries.map_values(|e: (K, V)| e.0).no_duplicates(),
    ensures
        ({
            let end = run_inserts(Seq::<K>::empty(), Map::<K, V>::empty(), entries);
            pairs_of(end.0, end.1) == entries
        }),
{
    lemma_run_inserts_appends(Seq::<K>::empty(), Map::<K, V>::empty(), entries);
    let end = run_inserts(Seq::<K>::empty(), Map::<K, V>::empty(), entries);
    assert(end.0 =~= entries.map_values(|e: (K, V)| e.0));
    assert(pairs_of(end.0, end.1) =~= entries);
}

} // verus!
