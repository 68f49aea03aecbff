//! Walking a slot-keyed map in ascending order of its keys.
use std::collections::BTreeMap;
use vstd::prelude::*;

verus! {

/// Every number is larger than those before it.
pub open spec fn ascending(s: Seq<u64>) -> bool {
    forall|i: int, j: int| 0 <= i < j < s.len() ==> s[i] < s[j]
}

/// `s` lists exactly the numbers of `keys`, in ascending order.
pub open spec fn enumerates(s: Seq<u64>, keys: Set<u64>) -> bool {
    &&& ascending(s)
    &&& forall|k: u64| #[trigger] s.contains(k) <==> keys.contains(k)
}

/// The numbers of a finite set in ascending order.
pub open spec fn in_order(keys: Set<u64>) -> Seq<u64> {
    choose|s: Seq<u64>| enumerates(s, keys)
}

/// A set has one ascending enumeration.
pub proof fn lemma_enumeration_is_unique(s: Seq<u64>, t: Seq<u64>, keys: Set<u64>)
    requires
        enumerates(s, keys),
        enumerates(t, keys),
    ensures
        s == t,
    decreases s.len(),
{
    if s.len() == 0 {
        if t.len() > 0 {
            assert(t.contains(t[0]));
            assert(s.contains(t[0]));
        }
        assert(s =~= t);
    } else {
        assert(s.contains(s.last()));
        assert(t.contains(s.last()));
        let k = choose|k: int| 0 <= k < t.len() && t[k] == s.last();
        assert(t.contains(t.last()));
        assert(s.contains(t.last()));
        let l = choose|l: int| 0 <= l < s.len() && s[l] == t.last();
        assert(s.last() == t.last()) by {
            if k < t.len() - 1 {
                assert(t[k] < t.last());
            }
            if l < s.len() - 1 {
                assert(s[l] < s.last());
            }
        }
        let rest = keys.remove(s.last());
        let s1 = s.drop_last();
        let t1 = t.drop_last();
        lemma_enumeration_without_last(s, keys);
        lemma_enumeration_without_last(t, keys);
        lemma_enumeration_is_unique(s1, t1, rest);
        assert(s =~= s1.push(s.last()));
        assert(t =~= t1.push(t.last()));
    }
}

/// Dropping the last number of an enumeration enumerates the rest.
pub proof fn lemma_enumeration_without_last(s: Seq<u64>, keys: Set<u64>)
    requires
        enumerates(s, keys),
        s.len() > 0,
    ensures
        enumerates(s.drop_last(), keys.remove(s.last())),
{
    let t = s.drop_last();
    assert forall|k: u64| #[trigger] t.contains(k) <==> keys.remove(s.last()).contains(k) by {
        if t.contains(k) {
            let i = choose|i: int| 0 <= i < t.len() && t[i] == k;
            assert(s[i] == k);
            assert(s.contains(k));
        }
        if keys.remove(s.last()).contains(k) {
            assert(s.contains(k));
            let i = choose|i: int| 0 <= i < s.len() && s[i] == k;
            assert(i < s.len() - 1);
            assert(t[i] == k);
        }
    }
}

/// A finite set that is not empty has a largest number.
proof fn lemma_has_largest(keys: Set<u64>) -> (largest: u64)
    requires
        keys.finite(),
        keys.len() > 0,
    ensures
        keys.contains(largest),
        forall|k: u64| #[trigger] keys.contains(k) ==> k <= largest,
    decreases keys.len(),
{
    let one = keys.choose();
    let rest = keys.remove(one);
    if rest.len() == 0 {
        assert forall|k: u64| #[trigger] keys.contains(k) implies k <= one by {
            if k != one {
                assert(rest.contains(k));
            }
        }
        one
    } else {
        let largest = lemma_has_largest(rest);
        let found = if one < largest {
            largest
        } else {
            one
        };
        assert forall|k: u64| #[trigger] keys.contains(k) implies k <= found by {
            if k != one {
                assert(rest.contains(k));
            }
        }
        found
    }
}

/// A finite set has an ascending enumeration.
proof fn lemma_enumeration_exists(keys: Set<u64>) -> (s: Seq<u64>)
    requires
        keys.finite(),
    ensures
        enumerates(s, keys),
        s.len() == keys.len(),
    decreases keys.len(),
{
    if keys.len() == 0 {
        let s = Seq::<u64>::empty();
        assert forall|k: u64| #[trigger] s.contains(k) <==> keys.contains(k) by {
            assert(keys =~= Set::empty());
        }
        s
    } else {
        let largest = lemma_has_largest(keys);
        let rest = keys.remove(largest);
        let before = lemma_enumeration_exists(rest);
        let s = before.push(largest);
        assert forall|i: int, j: int| 0 <= i < j < s.len() implies s[i] < s[j] by {
            assert(before.contains(before[i]));
            assert(rest.contains(before[i]));
        }
        assert forall|k: u64| #[trigger] s.contains(k) <==> keys.contains(k) by {
            if s.contains(k) {
                let i = choose|i: int| 0 <= i < s.len() && s[i] == k;
                if i < before.len() {
                    assert(before.contains(k));
                }
            }
            if keys.contains(k) {
                if k == largest {
                    assert(s[before.len() as int] == k);
                } else {
                    assert(before.contains(k));
                    let i = choose|i: int| 0 <= i < before.len() && before[i] == k;
                    assert(s[i] == k);
                }
            }
        }
        s
    }
}

/// Every finite set has an order: all its numbers are listed once, in ascending order, and so
/// the first is the smallest.
pub proof fn lemma_finite_set_has_an_order(keys: Set<u64>)
    requires
        keys.finite(),
    ensures
        enumerates(in_order(keys), keys),
        in_order(keys).len() == keys.len(),
        keys.len() > 0 ==> keys.contains(in_order(keys)[0]),
        forall|k: u64| #[trigger] keys.contains(k) ==> in_order(keys)[0] <= k,
{
    let s = lemma_enumeration_exists(keys);
    lemma_in_order(s, keys);
    if keys.len() > 0 {
        assert(s.contains(s[0]));
    }
    assert forall|k: u64| #[trigger] keys.contains(k) implies s[0] <= k by {
        assert(s.contains(k));
        let i = choose|i: int| 0 <= i < s.len() && s[i] == k;
        if i > 0 {
            assert(s[0] < s[i]);
        }
    }
}

/// An enumeration of a set is the set's `in_order`.
pub proof fn lemma_in_order(s: Seq<u64>, keys: Set<u64>)
    requires
        enumerates(s, keys),
    ensures
        in_order(keys) == s,
{
    lemma_enumeration_is_unique(in_order(keys), s, keys);
}

/// The keys of a map in ascending order.
pub fn sorted_keys<V>(map: &BTreeMap<u64, V>) -> (keys: Vec<u64>)
    ensures
        enumerates(keys@, map@.dom()),
        keys@ == in_order(map@.dom()),
{
    broadcast use vstd::laws_cmp::group_laws_cmp;

    let mut keys: Vec<u64> = Vec::new();
    for entry in it: map.iter()
        invariant
            keys@.len() == it.index(),
            forall|i: int| 0 <= i < keys@.len() ==> keys@[i] == *it.seq()[i].0,
    {
        keys.push(*entry.0);
    }
    proof {
        let seen = vstd::std_specs::iter::IteratorSpec::remaining(
            &vstd::std_specs::btree::spec_btree_map_iter(map),
        );
        let firsts = seen.map_values(|kv: (&u64, &V)| *kv.0);
        assert(keys@ =~= firsts);
        assert forall|i: int, j: int| 0 <= i < j < keys@.len() implies keys@[i] < keys@[j] by {
            assert(vstd::std_specs::cmp::OrdSpec::cmp_spec(&firsts[i], &firsts[j]) is Less);
        }
        assert forall|k: u64| #[trigger] keys@.contains(k) <==> map@.dom().contains(k) by {
            if keys@.contains(k) {
                let i = choose|i: int| 0 <= i < keys@.len() && keys@[i] == k;
                assert(map@.contains_key(*seen[i].0));
            }
            if map@.contains_key(k) {
                assert(seen.contains((&k, &map@[k])));
                let i = choose|i: int| 0 <= i < seen.len() && seen[i] == (&k, &map@[k]);
                assert(keys@[i] == k);
            }
        }
        lemma_in_order(keys@, map@.dom());
    }
    keys
}

/// The value under a key.
pub fn lookup<V>(map: &BTreeMap<u64, V>, key: u64) -> (found: Option<&V>)
    ensures
        found is Some <==> map@.contains_key(key),
        found matches Some(value) ==> *value == map@[key],
{
    broadcast use vstd::laws_cmp::group_laws_cmp;

    map.get(&key)
}

/// Takes the value under a key out of the map.
pub fn take<V>(map: &mut BTreeMap<u64, V>, key: u64) -> (found: Option<V>)
    ensures
        final(map)@ == old(map)@.remove(key),
        found is Some <==> old(map)@.contains_key(key),
        found matches Some(value) ==> value == old(map)@[key],
{
    broadcast use vstd::laws_cmp::group_laws_cmp;

    let found = map.remove(&key);
    assert(map@ =~= old(map)@.remove(key));
    found
}

/// Puts a value under a key.
pub fn put<V>(map: &mut BTreeMap<u64, V>, key: u64, value: V)
    ensures
        final(map)@ == old(map)@.insert(key, value),
{
    broadcast use vstd::laws_cmp::group_laws_cmp;

    map.insert(key, value);
}

} // verus!
