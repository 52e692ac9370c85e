use std::collections::{HashMap, HashSet};
use std::hash::Hash;
use vstd::prelude::*;

use crate::key_model;
use crate::transaction::LocalChange;

verus! {

broadcast use vstd::std_specs::hash::group_hash_axioms;

/// The keys that a sequence of puts writes.
pub open spec fn put_keys<K, V>(puts: Seq<(K, V)>) -> Set<K> {
    Set::new(|k: K| exists|i: int| 0 <= i < puts.len() && (#[trigger] puts[i]).0 == k)
}

/// `puts` and `deletes` are the write set `w` taken apart: every put is a
/// buffered write of a clone of its value, every delete a buffered delete,
/// and every buffered change is among them.
pub open spec fn is_split_of<K, V: Clone>(w: Map<K, LocalChange<V>>, puts: Seq<(K, V)>, deletes: Seq<K>) -> bool {
    &&& forall|i: int|
        0 <= i < puts.len() ==> #[trigger] w.contains_key(puts[i].0) && (w[puts[i].0] matches LocalChange::Put(v)
            && cloned(v, puts[i].1))
    &&& forall|i: int| 0 <= i < deletes.len() ==> #[trigger] w.contains_key(deletes[i]) && w[deletes[i]] is Deleted
    &&& forall|k: K|
        #[trigger] w.contains_key(k) ==> (w[k] is Put ==> put_keys(puts).contains(k)) && (w[k] is Deleted
            ==> deletes.contains(k))
}

/// A copy of a set of keys, key by key.
pub fn copy_key_set<K: Eq + Hash + Clone>(s: &HashSet<K>) -> (r: HashSet<K>)
    requires
        key_model::<K>(),
    ensures
        r@ == s@,
{
    let mut r: HashSet<K> = HashSet::new();
    for k in it: s.iter()
        invariant
            key_model::<K>(),
            it.seq().unref().to_set() == s@,
            forall|x: K| s@.contains(x) ==> exists|j: int| 0 <= j < it.seq().len() && *it.seq()[j] == x,
            forall|x: K| r@.contains(x) <==> exists|j: int| 0 <= j < it.index() && *it.seq()[j] == x,
            forall|x: K| r@.contains(x) ==> s@.contains(x),
    {
        let ghost i = it.index();
        r.insert(k.clone());
        proof {
            assert forall|x: K| r@.contains(x) <==> exists|j: int| 0 <= j < i + 1 && *it.seq()[j] == x by {
                if r@.contains(x) && x != *k {
                    let j = choose|j: int| 0 <= j < i && *it.seq()[j] == x;
                }
                if x == *k {
                    assert(*it.seq()[i as int] == x);
                }
                if r@.contains(x) {
                    let j = choose|j: int| 0 <= j < i + 1 && *it.seq()[j] == x;
                    assert(it.seq().unref()[j] == x);
                    assert(it.seq().unref().to_set().contains(x));
                }
            }
        }
    }
    r
}

/// The keys of a write set.
pub fn write_keys<K: Eq + Hash + Clone, V>(w: &HashMap<K, LocalChange<V>>) -> (r: HashSet<K>)
    requires
        key_model::<K>(),
    ensures
        r@ == w@.dom(),
{
    let mut r: HashSet<K> = HashSet::new();
    for kv in it: w.iter()
        invariant
            key_model::<K>(),
            forall|x: K| w@.contains_key(x) <==> exists|j: int| 0 <= j < it.seq().len() && *it.seq()[j].0 == x,
            forall|x: K| r@.contains(x) <==> exists|j: int| 0 <= j < it.index() && *it.seq()[j].0 == x,
    {
        let ghost i = it.index();
        let (k, _change) = kv;
        r.insert(k.clone());
        proof {
            assert forall|x: K| r@.contains(x) <==> exists|j: int| 0 <= j < i + 1 && *it.seq()[j].0 == x by {
                if r@.contains(x) && x != *k {
                    let j = choose|j: int| 0 <= j < i && *it.seq()[j].0 == x;
                }
                if x == *k {
                    assert(*it.seq()[i as int].0 == x);
                }
            }
        }
    }
    r
}

/// Takes a write set apart into the values to put and the keys to delete.
pub fn split_writes<K: Eq + Hash + Clone, V: Clone>(w: &HashMap<K, LocalChange<V>>) -> (r: (Vec<(K, V)>, Vec<K>))
    requires
        key_model::<K>(),
    ensures
        is_split_of(w@, r.0@, r.1@),
{
    let mut puts: Vec<(K, V)> = Vec::new();
    let mut deletes: Vec<K> = Vec::new();
    for kv in it: w.iter()
        invariant
            key_model::<K>(),
            forall|j: int| 0 <= j < it.seq().len() ==> #[trigger] w@.contains_key(*it.seq()[j].0) && w@[*it.seq()[j].0] == *it.seq()[j].1,
            forall|x: K| #[trigger] w@.contains_key(x) ==> exists|j: int| 0 <= j < it.seq().len() && *it.seq()[j].0 == x,
            forall|i: int|
                0 <= i < puts@.len() ==> #[trigger] w@.contains_key(puts@[i].0) && (w@[puts@[i].0] matches LocalChange::Put(v)
                    && cloned(v, puts@[i].1)),
            forall|i: int| 0 <= i < deletes@.len() ==> #[trigger] w@.contains_key(deletes@[i]) && w@[deletes@[i]] is Deleted,
            forall|j: int|
                0 <= j < it.index() ==> (*it.seq()[j].1 is Put ==> put_keys(puts@).contains(*it.seq()[j].0))
                    && (*it.seq()[j].1 is Deleted ==> deletes@.contains(*it.seq()[j].0)),
    {
        let ghost i = it.index();
        let ghost old_puts = puts@;
        let ghost old_deletes = deletes@;
        let (k, change) = kv;
        proof {
            assert(w@.contains_key(*it.seq()[i as int].0));
        }
        match change {
            LocalChange::Put(v) => {
                puts.push((k.clone(), v.clone()));
                proof {
                    assert(puts@[puts@.len() - 1].0 == *k);
                    assert forall|j: int| 0 <= j < i + 1 implies (*it.seq()[j].1 is Put ==> put_keys(puts@).contains(*it.seq()[j].0))
                        && (*it.seq()[j].1 is Deleted ==> deletes@.contains(*it.seq()[j].0)) by {
                        if j < i && *it.seq()[j].1 is Put {
                            let n = choose|n: int| 0 <= n < old_puts.len() && (#[trigger] old_puts[n]).0 == *it.seq()[j].0;
                            assert(puts@[n].0 == *it.seq()[j].0);
                        }
                    }
                }
            },
            LocalChange::Deleted => {
                deletes.push(k.clone());
                proof {
                    assert(deletes@[deletes@.len() - 1] == *k);
                    assert forall|j: int| 0 <= j < i + 1 implies (*it.seq()[j].1 is Put ==> put_keys(puts@).contains(*it.seq()[j].0))
                        && (*it.seq()[j].1 is Deleted ==> deletes@.contains(*it.seq()[j].0)) by {
                        if j < i && *it.seq()[j].1 is Deleted {
                            let n = choose|n: int| 0 <= n < old_deletes.len() && old_deletes[n] == *it.seq()[j].0;
                            assert(deletes@[n] == *it.seq()[j].0);
                        }
                    }
                }
            },
        }
    }
    (puts, deletes)
}

/// The keys that a batch writes or deletes.
pub fn modified_keys<K: Eq + Hash + Clone, V>(puts: &Vec<(K, V)>, deletes: &Vec<K>) -> (r: HashSet<K>)
    requires
        key_model::<K>(),
    ensures
        r@ == put_keys(puts@) + deletes@.to_set(),
{
    let mut r: HashSet<K> = HashSet::new();
    let mut i: usize = 0;
    while i < puts.len()
        invariant
            key_model::<K>(),
            i <= puts@.len(),
            forall|x: K| r@.contains(x) <==> exists|j: int| 0 <= j < i && (#[trigger] puts@[j]).0 == x,
        decreases puts@.len() - i,
    {
        r.insert(puts[i].0.clone());
        proof {
            assert forall|x: K| r@.contains(x) <==> exists|j: int| 0 <= j < i + 1 && (#[trigger] puts@[j]).0 == x by {
                if x == puts@[i as int].0 {
                    assert(puts@[i as int].0 == x);
                }
            }
        }
        i = i + 1;
    }
    let ghost after_puts = r@;
    let mut i: usize = 0;
    while i < deletes.len()
        invariant
            key_model::<K>(),
            i <= deletes@.len(),
            after_puts == put_keys(puts@),
            forall|x: K| #[trigger] r@.contains(x) <==> (after_puts.contains(x) || exists|j: int| 0 <= j < i && deletes@[j] == x),
        decreases deletes@.len() - i,
    {
        let ghost old_r = r@;
        let k = deletes[i].clone();
        assert(k == deletes@[i as int]);
        r.insert(k);
        proof {
            assert(r@ == old_r.insert(deletes@[i as int]));
            assert forall|x: K| #[trigger] r@.contains(x) <==> (after_puts.contains(x) || exists|j: int| 0 <= j < i + 1 && deletes@[j] == x) by {
                assert(old_r.contains(x) <==> (after_puts.contains(x) || exists|j: int| 0 <= j < i && deletes@[j] == x));
                if x == deletes@[i as int] {
                    assert(deletes@[i as int] == x);
                } else if exists|j: int| 0 <= j < i + 1 && deletes@[j] == x {
                    let j = choose|j: int| 0 <= j < i + 1 && deletes@[j] == x;
                    assert(j < i);
                }
            }
        }
        i = i + 1;
    }
    proof {
        assert forall|x: K| r@.contains(x) <==> (put_keys(puts@) + deletes@.to_set()).contains(x) by {
            if deletes@.to_set().contains(x) {
                assert(deletes@.contains(x));
                let j = choose|j: int| 0 <= j < deletes@.len() && deletes@[j] == x;
            }
            if r@.contains(x) && !after_puts.contains(x) {
                let j = choose|j: int| 0 <= j < deletes@.len() && deletes@[j] == x;
                assert(deletes@.contains(x));
            }
        }
    }
    r
}

} // verus!
