//! The aliasing container: a key-to-slot index table (a `HashMap`), a dense
//! value array (a `Vec`), and, as a documented design choice, a reverse
//! slot-to-keys table (a `Vec` of key lists) kept in sync with the index
//! table, so that reference counts and compaction repairs cost time
//! proportional to the keys of the affected slots rather than a scan of the
//! whole index table.

use std::collections::HashMap;
use std::hash::Hash;
use vstd::pervasive::cloned;
use vstd::prelude::*;
use vstd::std_specs::cmp::PartialEqSpec;
use vstd::std_specs::hash::obeys_key_model;

verus! {

/// The hypotheses under which a key type behaves like its mathematical value:
/// its hash table lookups follow the map model, its `==` agrees with
/// mathematical equality, and cloning it yields an equal key.
///
/// These hold for the primitive integer types; a caller instantiating the
/// container with its own key type is responsible for them, exactly as it is
/// responsible for a lawful `Eq` and `Hash` in ordinary Rust.
pub open spec fn well_behaved_key<K: Eq + Hash + Clone>() -> bool {
    &&& obeys_key_model::<K>()
    &&& K::obeys_eq_spec()
    &&& forall|a: K, b: K| #[trigger] a.eq_spec(&b) <==> a == b
    &&& forall|a: K, b: K| #[trigger] cloned::<K>(a, b) ==> b == a
}

/// The key hypotheses hold for `u64`: its hash lookups follow the map model
/// and its `==` and `clone` are the mathematical ones.
pub proof fn lemma_u64_well_behaved_key()
    ensures
        well_behaved_key::<u64>(),
{
    broadcast use vstd::std_specs::hash::group_hash_axioms;

}

/// A `MultiKeyMap` allows multiple keys to point to a single value.
///
/// Each stored value occupies one slot of the dense array `values`; every
/// live key is mapped by `key_map` to the slot it aliases. `slot_keys` holds,
/// for each slot, the keys currently mapping to it, so a slot's reference
/// count is the length of its key list.
#[derive(Debug)]
pub struct MultiKeyMap<K, V> {
    key_map: HashMap<K, usize>,
    values: Vec<V>,
    slot_keys: Vec<Vec<K>>,
}

impl<K: Eq + Hash + Clone, V> MultiKeyMap<K, V> {
    /// The index table: every live key mapped to the slot of its value.
    pub closed spec fn slot_map(&self) -> Map<K, usize> {
        self.key_map@
    }

    /// The dense value array, as the sequence of stored values by slot.
    pub closed spec fn value_seq(&self) -> Seq<V> {
        self.values@
    }

    /// The keys currently aliasing the value in `slot`.
    pub open spec fn keys_at(&self, slot: int) -> Set<K> {
        self.slot_map().dom().filter(|k: K| self.slot_map()[k] as int == slot)
    }

    /// The reference count of `slot`: the number of keys mapping to it.
    pub open spec fn ref_count(&self, slot: int) -> nat {
        self.keys_at(slot).len()
    }

    /// What looking a key up returns: the value in the key's slot.
    pub open spec fn spec_get(&self, k: K) -> Option<V> {
        if self.slot_map().contains_key(k) {
            Some(self.value_seq()[self.slot_map()[k] as int])
        } else {
            None
        }
    }

    /// The index table after a compaction: every key that referenced slot
    /// `from` (the displaced last slot) is repointed to slot `to`.
    pub open spec fn repointed(m: Map<K, usize>, from: int, to: usize) -> Map<K, usize> {
        Map::new(
            |k: K| m.dom().contains(k),
            |k: K| if m[k] as int == from { to } else { m[k] },
        )
    }

    /// Well-formedness: keys point into the value array, the reverse table
    /// lists exactly the keys of each slot without duplicates, and the key
    /// type is well behaved.
    pub closed spec fn wf(&self) -> bool {
        &&& well_behaved_key::<K>()
        &&& self.slot_keys@.len() == self.values@.len()
        &&& forall|k: K| #[trigger]
            self.key_map@.contains_key(k) ==> {
                &&& (self.key_map@[k] as int) < self.values@.len()
                &&& self.slot_keys@[self.key_map@[k] as int]@.contains(k)
            }
        &&& forall|i: int, j: int|
            0 <= i < self.slot_keys@.len() && 0 <= j < self.slot_keys@[i]@.len() ==> {
                &&& self.key_map@.contains_key(#[trigger] self.slot_keys@[i]@[j])
                &&& self.key_map@[self.slot_keys@[i]@[j]] as int == i
            }
        &&& forall|i: int|
            0 <= i < self.slot_keys@.len() ==> (#[trigger] self.slot_keys@[i]@).no_duplicates()
    }

    /// Every live slot is referenced by at least one key. Inserting over an
    /// existing key, or reassigning an existing alias, may orphan a slot and
    /// break this; all other operations preserve it.
    pub open spec fn all_slots_live(&self) -> bool {
        forall|i: int| 0 <= i < self.value_seq().len() ==> self.ref_count(i) >= 1
    }

    /// Creates an empty `MultiKeyMap`.
    pub fn new() -> (r: Self)
        requires
            well_behaved_key::<K>(),
        ensures
            r.wf(),
            r.all_slots_live(),
            r.slot_map() == Map::<K, usize>::empty(),
            r.value_seq() == Seq::<V>::empty(),
    {
        MultiKeyMap { key_map: HashMap::new(), values: Vec::new(), slot_keys: Vec::new() }
    }

    /// Retrieves a reference to a value by its key.
    ///
    /// Returns `None` if the key does not exist.
    pub fn get(&self, key: &K) -> (r: Option<&V>)
        requires
            self.wf(),
        ensures
            match r {
                Some(v) => self.slot_map().contains_key(*key) && *v == self.value_seq()[self.slot_map()[*key] as int],
                None => !self.slot_map().contains_key(*key),
            },
    {
        match self.key_map.get(key) {
            None => None,
            Some(i) => Some(&self.values[*i]),
        }
    }

    /// Retrieves a mutable reference to a value by its key.
    ///
    /// Returns `None` if the key does not exist. Writing through the
    /// reference updates the value in the key's slot and nothing else.
    pub fn get_mut(&mut self, key: &K) -> (r: Option<&mut V>)
        requires
            old(self).wf(),
        ensures
            final(self).wf(),
            !old(self).slot_map().contains_key(*key) ==> r is None && *final(self) == *old(self),
            old(self).slot_map().contains_key(*key) ==> {
                let slot = old(self).slot_map()[*key] as int;
                &&& r is Some
                &&& *r.unwrap() == old(self).value_seq()[slot]
                &&& final(self).slot_map() == old(self).slot_map()
                &&& final(self).value_seq() == old(self).value_seq().update(
                    slot,
                    *final(r.unwrap()),
                )
            },
    {
        let slot_opt: Option<usize> = match self.key_map.get(key) {
            Some(i) => Some(*i),
            None => None,
        };
        match slot_opt {
            None => None,
            Some(slot) => Some(&mut self.values[slot]),
        }
    }

    /// Retrieves all aliases (including the key itself) for a given key.
    ///
    /// Returns the keys associated with the value of the specified key, in
    /// unspecified order, or `None` if the key is absent.
    pub fn aliases(&self, key: &K) -> (r: Option<Vec<K>>)
        requires
            self.wf(),
        ensures
            !self.slot_map().contains_key(*key) ==> r is None,
            self.slot_map().contains_key(*key) ==> {
                let slot = self.slot_map()[*key] as int;
                &&& r matches Some(v)
                &&& v@.to_set() == self.keys_at(slot)
                &&& v@.no_duplicates()
                &&& v@.len() == self.ref_count(slot)
            },
    {
        let slot_opt: Option<usize> = match self.key_map.get(key) {
            Some(i) => Some(*i),
            None => None,
        };
        match slot_opt {
            None => None,
            Some(slot) => {
                let list = self.slot_keys[slot].clone();
                proof {
                    assert forall|t: int| 0 <= t < list@.len() implies list@[t]
                        == self.slot_keys@[slot as int]@[t] by {
                        assert(cloned::<K>(self.slot_keys@[slot as int]@[t], list@[t]));
                    }
                    assert(list@ =~= self.slot_keys@[slot as int]@);
                    self.lemma_slot_list_is_keys_at(slot as int);
                }
                Some(list)
            }
        }
    }

    /// Retrieves all keys in the map, originals and aliases alike.
    ///
    /// Returns a snapshot of the registered keys, in unspecified order.
    pub fn keys(&self) -> (r: Vec<K>)
        requires
            self.wf(),
        ensures
            r@.to_set() == self.slot_map().dom(),
            r@.no_duplicates(),
            r@.len() == self.slot_map().dom().len(),
    {
        let mut out: Vec<K> = Vec::new();
        let n = self.slot_keys.len();
        let mut i: usize = 0;
        while i < n
            invariant
                self.wf(),
                n == self.slot_keys@.len(),
                i <= n,
                out@.no_duplicates(),
                forall|k: K| #[trigger]
                    out@.contains(k) <==> (self.slot_map().dom().contains(k) && (
                    self.slot_map()[k] as int) < i as int),
            decreases n - i,
        {
            let m = self.slot_keys[i].len();
            let mut j: usize = 0;
            while j < m
                invariant
                    self.wf(),
                    i < n,
                    n == self.slot_keys@.len(),
                    m == self.slot_keys@[i as int]@.len(),
                    j <= m,
                    out@.no_duplicates(),
                    forall|k: K| #[trigger]
                        out@.contains(k) <==> (self.slot_map().dom().contains(k) && ((
                        self.slot_map()[k] as int) < i as int || (self.slot_map()[k] as int
                            == i as int && self.slot_keys@[i as int]@.subrange(
                            0,
                            j as int,
                        ).contains(k)))),
                decreases m - j,
            {
                let ghost out0 = out@;
                let ghost jj = j as int;
                let ghost ii = i as int;
                let ghost list = self.slot_keys@[ii]@;
                let k = self.slot_keys[i][j].clone();
                proof {
                    assert(cloned::<K>(list[jj], k));
                    assert(k == list[jj]);
                    assert(self.key_map@.contains_key(k) && self.key_map@[k] as int == ii);
                    assert(!out0.contains(k)) by {
                        if out0.contains(k) {
                            assert(list.subrange(0, jj).contains(k));
                            let t = choose|t: int| 0 <= t < jj && list.subrange(0, jj)[t] == k;
                            assert(list[t] == k && list[jj] == k);
                        }
                    }
                }
                out.push(k);
                j += 1;
                proof {
                    assert(out@ == out0.push(k));
                    assert(list.subrange(0, jj + 1) == list.subrange(0, jj).push(list[jj]));
                    assert forall|kk: K| #[trigger] out@.contains(kk) implies (
                    self.slot_map().dom().contains(kk) && ((self.slot_map()[kk] as int) < ii || (
                    self.slot_map()[kk] as int == ii && list.subrange(0, jj + 1).contains(
                        kk,
                    )))) by {
                        let t = choose|t: int| 0 <= t < out@.len() && out@[t] == kk;
                        if t < out0.len() {
                            assert(out0[t] == kk);
                            assert(out0.contains(kk));
                            if self.slot_map()[kk] as int == ii {
                                let u = choose|u: int|
                                    0 <= u < jj && list.subrange(0, jj)[u] == kk;
                                assert(list.subrange(0, jj + 1)[u] == kk);
                            }
                        } else {
                            assert(kk == k);
                            assert(list.subrange(0, jj + 1)[jj] == k);
                        }
                    }
                    assert forall|kk: K|
                        (self.slot_map().dom().contains(kk) && ((self.slot_map()[kk] as int) < ii
                            || (self.slot_map()[kk] as int == ii && list.subrange(
                            0,
                            jj + 1,
                        ).contains(kk)))) implies #[trigger] out@.contains(kk) by {
                        if self.slot_map()[kk] as int == ii && list.subrange(0, jj + 1).contains(
                            kk,
                        ) {
                            let t = choose|t: int|
                                0 <= t < jj + 1 && (#[trigger] list.subrange(0, jj + 1)[t]) == kk;
                            if t < jj {
                                assert(list.subrange(0, jj)[t] == kk);
                                assert(out0.contains(kk));
                                assert(out@[choose|u: int|
                                    0 <= u < out0.len() && out0[u] == kk] == kk);
                            } else {
                                assert(kk == k);
                                assert(out@[out0.len() as int] == k);
                            }
                        } else {
                            assert(out0.contains(kk));
                            let u = choose|u: int| 0 <= u < out0.len() && out0[u] == kk;
                            assert(out@[u] == kk);
                        }
                    }
                }
            }
            i += 1;
            proof {
                let ii = i as int - 1;
                let list = self.slot_keys@[ii]@;
                assert(list.subrange(0, m as int) == list);
                assert forall|k: K| #[trigger]
                    out@.contains(k) <==> (self.slot_map().dom().contains(k) && (
                    self.slot_map()[k] as int) < i as int) by {
                    if self.slot_map().dom().contains(k) && self.slot_map()[k] as int == ii {
                        assert(self.slot_keys@[ii]@.contains(k));
                    }
                }
            }
        }
        proof {
            assert(out@.to_set() =~= self.slot_map().dom());
            out@.unique_seq_to_set();
        }
        out
    }

    /// Checks if a key exists in the map.
    pub fn contains_key(&self, key: &K) -> (r: bool)
        requires
            self.wf(),
        ensures
            r == self.slot_map().contains_key(*key),
    {
        self.key_map.contains_key(key)
    }

    /// Returns the number of values in the map (not the number of keys).
    pub fn len(&self) -> (r: usize)
        ensures
            r == self.value_seq().len(),
    {
        self.values.len()
    }

    /// Returns `true` if the map contains no values.
    pub fn is_empty(&self) -> (r: bool)
        ensures
            r == (self.value_seq().len() == 0),
    {
        self.values.is_empty()
    }

    /// Inserts a value with the given key.
    ///
    /// A fresh slot holding `value` is appended and `key` is mapped to it. If
    /// `key` was already present it is repointed to the new slot; the slot it
    /// used to reference is left in place, even if no key references it any
    /// more. That mirrors the container's documented overwrite policy: an
    /// orphaned slot stays allocated until the store is cleared.
    pub fn insert(&mut self, key: K, value: V)
        requires
            old(self).wf(),
        ensures
            final(self).wf(),
            final(self).value_seq() == old(self).value_seq().push(value),
            final(self).slot_map() == old(self).slot_map().insert(
                key,
                old(self).value_seq().len() as usize,
            ),
            final(self).spec_get(key) == Some(value),
            old(self).all_slots_live() && !old(self).slot_map().contains_key(key)
                ==> final(self).all_slots_live(),
    {
        let ghost pre = *old(self);
        let prior: Option<usize> = match self.key_map.get(&key) {
            Some(i) => Some(*i),
            None => None,
        };
        if let Some(old_slot) = prior {
            let j = Self::position_of_key(&self.slot_keys[old_slot], &key);
            proof {
                Self::lemma_swap_remove_list(self.slot_keys@[old_slot as int]@, j as int);
            }
            self.slot_keys[old_slot].swap_remove(j);
        }
        let index = self.values.len();
        self.values.push(value);
        let key_copy = key.clone();
        proof {
            assert(cloned::<K>(key, key_copy));
            assert(key_copy == key);
        }
        self.slot_keys.push(vec![key_copy]);
        self.key_map.insert(key, index);
        proof {
            let post = *self;
            assert forall|k: K| #[trigger] post.key_map@.contains_key(k) implies {
                &&& (post.key_map@[k] as int) < post.values@.len()
                &&& post.slot_keys@[post.key_map@[k] as int]@.contains(k)
            } by {
                if k == key {
                    assert(post.slot_keys@[index as int]@[0] == k);
                } else {
                    assert(pre.key_map@.contains_key(k));
                    let s = pre.key_map@[k] as int;
                    if prior is Some && s == prior->0 as int {
                        assert(pre.slot_keys@[s]@.contains(k));
                        assert(pre.slot_keys@[s]@.to_set().remove(key).contains(k));
                        assert(post.slot_keys@[s]@.to_set().contains(k));
                    }
                }
            }
            assert forall|i: int, j2: int|
                0 <= i < post.slot_keys@.len() && 0 <= j2 < post.slot_keys@[i]@.len() implies {
                &&& post.key_map@.contains_key(post.slot_keys@[i]@[j2])
                &&& post.key_map@[post.slot_keys@[i]@[j2]] as int == i
            } by {
                if i == index as int {
                    assert(post.slot_keys@[i]@[j2] == key);
                } else {
                    let k = post.slot_keys@[i]@[j2];
                    if prior is Some && i == prior->0 as int {
                        assert(post.slot_keys@[i]@.to_set().contains(k));
                        assert(pre.slot_keys@[i]@.to_set().remove(key).contains(k));
                        assert(pre.slot_keys@[i]@.contains(k));
                    } else {
                        assert(pre.slot_keys@[i]@[j2] == k);
                        assert(pre.slot_keys@[i]@.contains(k));
                    }
                    assert(pre.key_map@.contains_key(k) && pre.key_map@[k] as int == i);
                    assert(k != key);
                }
            }
            assert forall|i: int| 0 <= i < post.slot_keys@.len() implies (
            #[trigger] post.slot_keys@[i]@).no_duplicates() by {
                if i == index as int {
                } else if prior is Some && i == prior->0 as int {
                } else {
                    assert(post.slot_keys@[i]@ == pre.slot_keys@[i]@);
                }
            }
            assert(post.wf());
            assert(post.spec_get(key) == Some(value));
            if pre.all_slots_live() && !pre.slot_map().contains_key(key) {
                assert forall|i: int| 0 <= i < post.value_seq().len() implies post.ref_count(i)
                    >= 1 by {
                    if i < pre.value_seq().len() {
                        assert(pre.keys_at(i) =~= post.keys_at(i));
                        assert(pre.ref_count(i) >= 1);
                    } else {
                        assert(post.keys_at(i).contains(key));
                        assert(post.keys_at(i).finite());
                        assert(post.keys_at(i).remove(key).len() + 1 == post.keys_at(i).len());
                    }
                }
            }
        }
    }

    /// Adds a new alias key for the element at `key`.
    ///
    /// Returns the resulting reference count of the shared slot, or `None` if
    /// `alias` equals `key` (no self-aliasing) or `key` is absent. An `alias`
    /// that already pointed elsewhere is silently repointed; the slot it
    /// leaves is not compacted, even if no key references it any more.
    pub fn insert_alias(&mut self, key: &K, alias: K) -> (r: Option<usize>)
        requires
            old(self).wf(),
        ensures
            final(self).wf(),
            *key == alias || !old(self).slot_map().contains_key(*key) ==> {
                &&& r is None
                &&& *final(self) == *old(self)
            },
            *key != alias && old(self).slot_map().contains_key(*key) ==> {
                let slot = old(self).slot_map()[*key];
                &&& final(self).slot_map() == old(self).slot_map().insert(alias, slot)
                &&& final(self).value_seq() == old(self).value_seq()
                &&& r matches Some(c) && c as nat == final(self).ref_count(slot as int)
                &&& final(self).spec_get(alias) == old(self).spec_get(*key)
            },
            old(self).all_slots_live() && (r is None || !old(self).slot_map().contains_key(alias)
                || old(self).slot_map()[alias] == old(self).slot_map()[*key])
                ==> final(self).all_slots_live(),
    {
        let ghost pre = *old(self);
        if *key == alias {
            return None;
        }
        let slot_opt: Option<usize> = match self.key_map.get(key) {
            Some(i) => Some(*i),
            None => None,
        };
        match slot_opt {
            None => None,
            Some(slot) => {
                if self.key_map.contains_key(&alias) {
                    self.detach_key(&alias);
                }
                let ghost mid = *self;
                let alias_copy = alias.clone();
                proof {
                    assert(cloned::<K>(alias, alias_copy));
                    assert(alias_copy == alias);
                }
                self.slot_keys[slot].push(alias_copy);
                self.key_map.insert(alias, slot);
                proof {
                    let post = *self;
                    let mid_list = mid.slot_keys@[slot as int]@;
                    assert(post.slot_keys@[slot as int]@ == mid_list.push(alias));
                    assert(!mid_list.contains(alias)) by {
                        if mid_list.contains(alias) {
                            let t = choose|t: int|
                                0 <= t < mid_list.len() && mid_list[t] == alias;
                            assert(mid.key_map@.contains_key(alias));
                        }
                    }
                    assert forall|k: K| #[trigger] post.key_map@.contains_key(k) implies {
                        &&& (post.key_map@[k] as int) < post.values@.len()
                        &&& post.slot_keys@[post.key_map@[k] as int]@.contains(k)
                    } by {
                        if k == alias {
                            assert(post.slot_keys@[slot as int]@[mid_list.len() as int] == alias);
                        } else {
                            assert(mid.key_map@.contains_key(k));
                            let s = mid.key_map@[k] as int;
                            if s == slot as int {
                                let t = choose|t: int|
                                    0 <= t < mid_list.len() && mid_list[t] == k;
                                assert(post.slot_keys@[s]@[t] == k);
                            } else {
                                assert(post.slot_keys@[s]@ == mid.slot_keys@[s]@);
                            }
                        }
                    }
                    assert forall|i: int, j2: int|
                        0 <= i < post.slot_keys@.len() && 0 <= j2 < post.slot_keys@[i]@.len()
                        implies {
                        &&& post.key_map@.contains_key(post.slot_keys@[i]@[j2])
                        &&& post.key_map@[post.slot_keys@[i]@[j2]] as int == i
                    } by {
                        let k = post.slot_keys@[i]@[j2];
                        if i == slot as int && j2 == mid_list.len() {
                            assert(k == alias);
                        } else {
                            assert(k == mid.slot_keys@[i]@[j2]);
                            assert(mid.key_map@.contains_key(k) && mid.key_map@[k] as int == i);
                            assert(k != alias);
                        }
                    }
                    assert forall|i: int| 0 <= i < post.slot_keys@.len() implies (
                    #[trigger] post.slot_keys@[i]@).no_duplicates() by {
                        if i == slot as int {
                            assert forall|s: int, t: int|
                                0 <= s < t < post.slot_keys@[i]@.len() implies post.slot_keys@[i]@[s]
                                != post.slot_keys@[i]@[t] by {
                                if t == mid_list.len() {
                                    assert(post.slot_keys@[i]@[s] == mid_list[s]);
                                    assert(mid_list.contains(mid_list[s]));
                                }
                            }
                        } else {
                            assert(post.slot_keys@[i]@ == mid.slot_keys@[i]@);
                        }
                    }
                    assert(post.wf());
                    assert(post.slot_map() =~= pre.slot_map().insert(alias, slot));
                    if pre.all_slots_live() && (!pre.slot_map().contains_key(alias)
                        || pre.slot_map()[alias] == slot) {
                        assert forall|i: int| 0 <= i < post.value_seq().len() implies post.ref_count(
                            i,
                        ) >= 1 by {
                            assert(pre.ref_count(i) >= 1);
                            let w = pre.keys_at(i).choose();
                            assert(pre.keys_at(i).contains(w));
                            if w == alias {
                                assert(i == slot as int);
                            }
                            assert(post.keys_at(i).contains(w));
                            assert(post.keys_at(i).finite());
                            assert(post.keys_at(i).remove(w).len() + 1 == post.keys_at(i).len());
                        }
                    }
                }
                let c = self.count_references(slot);
                Some(c)
            }
        }
    }

    /// Removes an alias key.
    ///
    /// Returns the reference count that remains for the vacated slot, or
    /// `None` if the key is absent. When the count reaches zero the value is
    /// removed as well and the dense array is compacted; every other key
    /// still resolves to the value it resolved to before.
    pub fn remove_alias(&mut self, alias: &K) -> (r: Option<usize>)
        requires
            old(self).wf(),
        ensures
            final(self).wf(),
            !old(self).slot_map().contains_key(*alias) ==> r is None && *final(self) == *old(self),
            old(self).slot_map().contains_key(*alias) ==> {
                let slot = old(self).slot_map()[*alias] as int;
                &&& r matches Some(c) && c as nat == (old(self).ref_count(slot) - 1) as nat
                &&& !final(self).slot_map().contains_key(*alias)
                &&& old(self).ref_count(slot) > 1 ==> {
                    &&& final(self).slot_map() == old(self).slot_map().remove(*alias)
                    &&& final(self).value_seq() == old(self).value_seq()
                }
                &&& old(self).ref_count(slot) == 1 ==> {
                    &&& final(self).value_seq() == old(self).value_seq().update(
                        slot,
                        old(self).value_seq().last(),
                    ).drop_last()
                    &&& final(self).slot_map() == Self::repointed(
                        old(self).slot_map().remove(*alias),
                        old(self).value_seq().len() - 1,
                        old(self).slot_map()[*alias],
                    )
                }
                &&& forall|k: K|
                    old(self).slot_map().contains_key(k) && k != *alias ==> final(self).spec_get(k)
                        == old(self).spec_get(k)
            },
            old(self).all_slots_live() ==> final(self).all_slots_live(),
    {
        let ghost pre = *old(self);
        let slot_opt: Option<usize> = match self.key_map.get(alias) {
            Some(i) => Some(*i),
            None => None,
        };
        match slot_opt {
            None => None,
            Some(slot) => {
                proof {
                    assert(pre.keys_at(slot as int).contains(*alias));
                    assert(pre.keys_at(slot as int).finite());
                    assert(pre.keys_at(slot as int).remove(*alias).len() + 1 == pre.ref_count(
                        slot as int,
                    ));
                    // Only the removed alias can sit on the slot when its
                    // count is one.
                    if pre.ref_count(slot as int) == 1 {
                        assert forall|k: K|
                            pre.slot_map().contains_key(k) && k != *alias implies pre.slot_map()[k]
                            as int != slot as int by {
                            if pre.slot_map()[k] as int == slot as int {
                                assert(pre.keys_at(slot as int).remove(*alias).contains(k));
                                assert(pre.keys_at(slot as int).remove(*alias).remove(k).len() + 1
                                    == pre.keys_at(slot as int).remove(*alias).len());
                            }
                        }
                    }
                }
                self.detach_key(alias);
                proof {
                    assert(self.keys_at(slot as int) =~= pre.keys_at(slot as int).remove(*alias));
                }
                let remaining = self.count_references(slot);
                let ghost mid = *self;
                if remaining == 0 {
                    let _ = self.compact_slot(slot);
                    proof {
                        let post = *self;
                        let last = pre.value_seq().len() - 1;
                        assert(post.slot_map() == Self::repointed(
                            pre.slot_map().remove(*alias),
                            last,
                            slot,
                        )) by {
                            assert(mid.slot_map() == pre.slot_map().remove(*alias));
                        }
                        assert forall|k: K|
                            pre.slot_map().contains_key(k) && k != *alias implies post.spec_get(k)
                            == pre.spec_get(k) by {
                            let s = pre.slot_map()[k] as int;
                            assert(s != slot as int);
                            assert(post.slot_map().contains_key(k));
                            if s == last {
                                assert(slot as int != last);
                                assert(post.slot_map()[k] as int == slot as int);
                                assert(post.value_seq()[slot as int] == pre.value_seq()[last]);
                            } else {
                                assert(post.slot_map()[k] as int == s);
                                assert(post.value_seq()[s] == pre.value_seq()[s]);
                            }
                        }
                        if pre.all_slots_live() {
                            assert forall|i: int|
                                0 <= i < post.value_seq().len() implies post.ref_count(i) >= 1 by {
                                let source = if i == slot as int {
                                    last
                                } else {
                                    i
                                };
                                assert(pre.ref_count(source) >= 1);
                                let w = pre.keys_at(source).choose();
                                assert(pre.keys_at(source).contains(w));
                                assert(w != *alias);
                                assert(post.keys_at(i).contains(w));
                                assert(post.keys_at(i).finite());
                                assert(post.keys_at(i).remove(w).len() + 1 == post.keys_at(
                                    i,
                                ).len());
                            }
                        }
                    }
                } else {
                    proof {
                        let post = *self;
                        assert forall|k: K|
                            pre.slot_map().contains_key(k) && k != *alias implies post.spec_get(k)
                            == pre.spec_get(k) by {}
                        if pre.all_slots_live() {
                            assert forall|i: int|
                                0 <= i < post.value_seq().len() implies post.ref_count(i) >= 1 by {
                                if i == slot as int {
                                    assert(post.ref_count(i) == remaining);
                                } else {
                                    assert(pre.ref_count(i) >= 1);
                                    assert(post.keys_at(i) =~= pre.keys_at(i));
                                    assert(post.ref_count(i) == pre.ref_count(i));
                                }
                            }
                        }
                    }
                }
                Some(remaining)
            }
        }
    }

    /// Removes a value by its key and all its aliases.
    ///
    /// Returns the value if it was present. Every key aliasing the value's
    /// slot is detached, the dense array is compacted, and every key of the
    /// displaced last slot is repointed; keys of other slots still resolve to
    /// the value they resolved to before.
    pub fn remove(&mut self, key: &K) -> (r: Option<V>)
        requires
            old(self).wf(),
        ensures
            final(self).wf(),
            !old(self).slot_map().contains_key(*key) ==> r is None && *final(self) == *old(self),
            old(self).slot_map().contains_key(*key) ==> {
                let slot = old(self).slot_map()[*key] as int;
                &&& r == Some(old(self).value_seq()[slot])
                &&& final(self).value_seq() == old(self).value_seq().update(
                    slot,
                    old(self).value_seq().last(),
                ).drop_last()
                &&& final(self).slot_map() == Self::repointed(
                    old(self).slot_map().remove_keys(old(self).keys_at(slot)),
                    old(self).value_seq().len() - 1,
                    old(self).slot_map()[*key],
                )
                &&& forall|k: K|
                    old(self).slot_map().contains_key(k) && old(self).slot_map()[k] as int == slot
                        ==> !final(self).slot_map().contains_key(k)
                &&& forall|k: K|
                    old(self).slot_map().contains_key(k) && old(self).slot_map()[k] as int != slot
                        ==> final(self).spec_get(k) == old(self).spec_get(k)
            },
            old(self).all_slots_live() ==> final(self).all_slots_live(),
    {
        let ghost pre = *old(self);
        let slot_opt: Option<usize> = match self.key_map.get(key) {
            Some(i) => Some(*i),
            None => None,
        };
        match slot_opt {
            None => None,
            Some(slot) => {
                while self.slot_keys[slot].len() > 0
                    invariant
                        self.wf(),
                        (slot as int) < self.value_seq().len(),
                        self.value_seq() == pre.value_seq(),
                        forall|k: K| #[trigger]
                            self.slot_map().contains_key(k) ==> pre.slot_map().contains_key(k)
                                && pre.slot_map()[k] == self.slot_map()[k],
                        forall|k: K| #[trigger]
                            pre.slot_map().contains_key(k) && pre.slot_map()[k] as int != slot as int
                                ==> self.slot_map().contains_key(k),
                    decreases self.ref_count(slot as int),
                {
                    let k = self.slot_keys[slot][0].clone();
                    proof {
                        assert(cloned::<K>(self.slot_keys@[slot as int]@[0], k));
                        assert(self.slot_keys@[slot as int]@.contains(k)) by {
                            assert(self.slot_keys@[slot as int]@[0] == k);
                        }
                        assert(self.slot_map().contains_key(k) && self.slot_map()[k] as int
                            == slot as int);
                    }
                    let ghost before = *self;
                    self.detach_key(&k);
                    proof {
                        assert(self.keys_at(slot as int) =~= before.keys_at(slot as int).remove(
                            k,
                        ));
                        assert(before.keys_at(slot as int).contains(k));
                        assert(before.keys_at(slot as int).finite());
                        assert(before.keys_at(slot as int).remove(k).len() + 1
                            == before.keys_at(slot as int).len());
                    }
                }
                proof {
                    self.lemma_slot_list_is_keys_at(slot as int);
                    assert(self.ref_count(slot as int) == 0);
                    assert forall|k: K|
                        pre.slot_map().contains_key(k) && pre.slot_map()[k] as int != slot as int
                        implies self.slot_map().contains_key(k) by {}
                    assert(self.slot_map() =~= pre.slot_map().remove_keys(
                        pre.keys_at(slot as int),
                    )) by {
                        assert forall|k: K| #[trigger]
                            self.slot_map().contains_key(k) implies pre.slot_map()[k] as int
                            != slot as int by {
                            if pre.slot_map()[k] as int == slot as int {
                                assert(self.keys_at(slot as int).contains(k));
                            }
                        }
                    }
                }
                let ghost mid = *self;
                let value = self.compact_slot(slot);
                proof {
                    let post = *self;
                    let last = pre.value_seq().len() - 1;
                    assert(mid.slot_map() == pre.slot_map().remove_keys(pre.keys_at(slot as int)));
                    assert forall|k: K|
                        pre.slot_map().contains_key(k) && pre.slot_map()[k] as int != slot as int
                        implies post.spec_get(k) == pre.spec_get(k) by {
                        let s = pre.slot_map()[k] as int;
                        assert(mid.slot_map().contains_key(k) && mid.slot_map()[k] as int == s);
                        assert(post.slot_map().contains_key(k));
                        if s == last {
                            assert(slot as int != last);
                            assert(post.slot_map()[k] as int == slot as int);
                            assert(post.value_seq()[slot as int] == pre.value_seq()[last]);
                        } else {
                            assert(post.slot_map()[k] as int == s);
                            assert(post.value_seq()[s] == pre.value_seq()[s]);
                        }
                    }
                    if pre.all_slots_live() {
                        assert forall|i: int| 0 <= i < post.value_seq().len() implies post.ref_count(
                            i,
                        ) >= 1 by {
                            let source = if i == slot as int {
                                last
                            } else {
                                i
                            };
                            assert(pre.ref_count(source) >= 1);
                            let w = pre.keys_at(source).choose();
                            assert(pre.keys_at(source).contains(w));
                            assert(pre.slot_map()[w] as int == source);
                            assert(source != slot as int);
                            assert(mid.slot_map().contains_key(w));
                            assert(post.keys_at(i).contains(w));
                            assert(post.keys_at(i).finite());
                            assert(post.keys_at(i).remove(w).len() + 1 == post.keys_at(i).len());
                        }
                    }
                }
                Some(value)
            }
        }
    }

    /// Checks if two keys point to the same value.
    ///
    /// Returns `true` iff both keys exist and resolve to the same slot.
    pub fn are_aliases(&self, key1: &K, key2: &K) -> (r: bool)
        requires
            self.wf(),
        ensures
            r == {
                &&& self.slot_map().contains_key(*key1)
                &&& self.slot_map().contains_key(*key2)
                &&& self.slot_map()[*key1] == self.slot_map()[*key2]
            },
    {
        match (self.key_map.get(key1), self.key_map.get(key2)) {
            (Some(i1), Some(i2)) => *i1 == *i2,
            _ => false,
        }
    }

    /// Clears the map, removing all key-value pairs.
    pub fn clear(&mut self)
        requires
            old(self).wf(),
        ensures
            final(self).wf(),
            final(self).all_slots_live(),
            final(self).slot_map() == Map::<K, usize>::empty(),
            final(self).value_seq() == Seq::<V>::empty(),
    {
        self.key_map.clear();
        self.values.clear();
        self.slot_keys.clear();
    }

    /// The key list of a live slot holds exactly the keys mapping to that
    /// slot, so its length is the slot's reference count.
    proof fn lemma_slot_list_is_keys_at(&self, slot: int)
        requires
            self.wf(),
            0 <= slot < self.value_seq().len(),
        ensures
            self.slot_keys@[slot]@.to_set() =~= self.keys_at(slot),
            self.slot_keys@[slot]@.len() == self.ref_count(slot),
    {
        let list = self.slot_keys@[slot]@;
        assert forall|k: K| list.to_set().contains(k) implies self.keys_at(slot).contains(k) by {
            assert(list.contains(k));
        }
        assert forall|k: K| self.keys_at(slot).contains(k) implies list.to_set().contains(k) by {
            assert(self.key_map@.contains_key(k));
            assert(self.slot_keys@[slot]@.contains(k));
        }
        assert(list.to_set() =~= self.keys_at(slot));
        list.unique_seq_to_set();
    }

    /// Swap-removing one occurrence from a duplicate-free key list removes
    /// exactly that key from the set of listed keys.
    proof fn lemma_swap_remove_list(list: Seq<K>, j: int)
        requires
            0 <= j < list.len(),
            list.no_duplicates(),
        ensures
            (list.update(j, list.last()).drop_last()).to_set() =~= list.to_set().remove(list[j]),
            (list.update(j, list.last()).drop_last()).no_duplicates(),
    {
        let n = list.len() as int;
        let shrunk = list.update(j, list.last()).drop_last();
        assert forall|k: K| shrunk.to_set().contains(k) implies list.to_set().remove(
            list[j],
        ).contains(k) by {
            let t = choose|t: int| 0 <= t < shrunk.len() && shrunk[t] == k;
            if t == j {
                assert(list[n - 1] == k);
            } else {
                assert(list[t] == k);
            }
        }
        assert forall|k: K| list.to_set().remove(list[j]).contains(k) implies shrunk.to_set().contains(
            k,
        ) by {
            let t = choose|t: int| 0 <= t < list.len() && list[t] == k;
            if t < n - 1 {
                assert(shrunk[t] == k);
            } else {
                assert(j < n - 1);
                assert(shrunk[j] == k);
            }
        }
        assert forall|s: int, t: int| 0 <= s < t < shrunk.len() implies shrunk[s] != shrunk[t] by {
            if s == j {
                assert(shrunk[s] == list[n - 1]);
                assert(shrunk[t] == list[t]);
            } else if t == j {
                assert(shrunk[t] == list[n - 1]);
                assert(shrunk[s] == list[s]);
            } else {
                assert(shrunk[s] == list[s]);
                assert(shrunk[t] == list[t]);
            }
        }
    }

    /// Finds the position of a key known to occur in a key list.
    fn position_of_key(list: &Vec<K>, key: &K) -> (r: usize)
        requires
            well_behaved_key::<K>(),
            list@.contains(*key),
        ensures
            r < list@.len(),
            list@[r as int] == *key,
    {
        let n = list.len();
        let mut j: usize = 0;
        while j < n
            invariant
                well_behaved_key::<K>(),
                n == list@.len(),
                j <= n,
                list@.contains(*key),
                forall|t: int| 0 <= t < j ==> list@[t] != *key,
            decreases n - j,
        {
            if list[j] == *key {
                return j;
            }
            j += 1;
        }
        proof {
            let t = choose|t: int| 0 <= t < list@.len() && list@[t] == *key;
            assert(false);
        }
        0
    }

    /// Detaches one key from the index table and from its slot's key list,
    /// without compacting: the slot stays, whether or not keys remain on it.
    fn detach_key(&mut self, key: &K)
        requires
            old(self).wf(),
            old(self).slot_map().contains_key(*key),
        ensures
            final(self).wf(),
            final(self).slot_map() == old(self).slot_map().remove(*key),
            final(self).value_seq() == old(self).value_seq(),
    {
        let ghost pre = *old(self);
        let slot = *self.key_map.get(key).unwrap();
        self.key_map.remove(key);
        let j = Self::position_of_key(&self.slot_keys[slot], key);
        proof {
            Self::lemma_swap_remove_list(self.slot_keys@[slot as int]@, j as int);
        }
        self.slot_keys[slot].swap_remove(j);
        proof {
            let post = *self;
            assert forall|k: K| #[trigger] post.key_map@.contains_key(k) implies {
                &&& (post.key_map@[k] as int) < post.values@.len()
                &&& post.slot_keys@[post.key_map@[k] as int]@.contains(k)
            } by {
                let s = pre.key_map@[k] as int;
                if s == slot as int {
                    assert(pre.slot_keys@[s]@.to_set().remove(*key).contains(k));
                    assert(post.slot_keys@[s]@.to_set().contains(k));
                }
            }
            assert forall|i: int, j2: int|
                0 <= i < post.slot_keys@.len() && 0 <= j2 < post.slot_keys@[i]@.len() implies {
                &&& post.key_map@.contains_key(post.slot_keys@[i]@[j2])
                &&& post.key_map@[post.slot_keys@[i]@[j2]] as int == i
            } by {
                let k = post.slot_keys@[i]@[j2];
                if i == slot as int {
                    assert(post.slot_keys@[i]@.to_set().contains(k));
                    assert(pre.slot_keys@[i]@.to_set().remove(*key).contains(k));
                    assert(pre.slot_keys@[i]@.contains(k));
                } else {
                    assert(pre.slot_keys@[i]@[j2] == k);
                    assert(pre.slot_keys@[i]@.contains(k));
                }
                assert(k != *key);
            }
            assert forall|i: int| 0 <= i < post.slot_keys@.len() implies (
            #[trigger] post.slot_keys@[i]@).no_duplicates() by {
                if i != slot as int {
                    assert(post.slot_keys@[i]@ == pre.slot_keys@[i]@);
                }
            }
            assert(post.wf());
        }
    }

    /// Removes a slot that no key references any more: swap-removes its value
    /// and its key list, and repoints every key of the displaced last slot to
    /// the compacted position.
    fn compact_slot(&mut self, slot: usize) -> (value: V)
        requires
            old(self).wf(),
            (slot as int) < old(self).value_seq().len(),
            old(self).ref_count(slot as int) == 0,
        ensures
            value == old(self).value_seq()[slot as int],
            final(self).wf(),
            final(self).value_seq() == old(self).value_seq().update(
                slot as int,
                old(self).value_seq().last(),
            ).drop_last(),
            final(self).slot_map() == Self::repointed(
                old(self).slot_map(),
                old(self).value_seq().len() - 1,
                slot,
            ),
    {
        let ghost pre = *old(self);
        let ghost last = pre.values@.len() - 1;
        proof {
            pre.lemma_slot_list_is_keys_at(slot as int);
            assert(pre.slot_keys@[slot as int]@.len() == 0) by {
                if pre.slot_keys@[slot as int]@.len() > 0 {
                    assert(pre.slot_keys@[slot as int]@.to_set().contains(
                        pre.slot_keys@[slot as int]@[0],
                    ));
                    assert(pre.keys_at(slot as int).remove(pre.slot_keys@[slot as int]@[0]).len()
                        + 1 == pre.keys_at(slot as int).len());
                }
            }
        }
        let value = self.values.swap_remove(slot);
        self.slot_keys.swap_remove(slot);
        let ghost mid = *self;
        let ghost moved = mid.slot_keys@[slot as int]@;
        if slot != self.values.len() {
            proof {
                assert(moved == pre.slot_keys@[last]@);
            }
            let n = self.slot_keys[slot].len();
            let mut j: usize = 0;
            while j < n
                invariant
                    well_behaved_key::<K>(),
                    (slot as int) < mid.slot_keys@.len(),
                    self.values == mid.values,
                    self.slot_keys == mid.slot_keys,
                    moved == mid.slot_keys@[slot as int]@,
                    n == moved.len(),
                    j <= n,
                    self.key_map@.dom() == mid.key_map@.dom(),
                    forall|t: int| 0 <= t < j ==> self.key_map@[moved[t]] as int == slot as int,
                    forall|k: K|
                        self.key_map@.dom().contains(k) && !moved.subrange(0, j as int).contains(k)
                            ==> self.key_map@[k] == mid.key_map@[k],
                    forall|t: int| 0 <= t < n ==> mid.key_map@.dom().contains(#[trigger] moved[t]),
                decreases n - j,
            {
                let ghost km0 = self.key_map@;
                let ghost jj = j as int;
                let k = self.slot_keys[slot][j].clone();
                proof {
                    assert(cloned::<K>(mid.slot_keys@[slot as int]@[jj], k));
                    assert(k == moved[jj]);
                }
                self.key_map.insert(k, slot);
                j += 1;
                proof {
                    assert(self.key_map@ == km0.insert(moved[jj], slot));
                    assert(moved.subrange(0, jj + 1) == moved.subrange(0, jj).push(moved[jj]));
                    assert forall|kk: K|
                        self.key_map@.dom().contains(kk) && !moved.subrange(0, jj + 1).contains(kk)
                            implies self.key_map@[kk] == mid.key_map@[kk] by {
                        assert(moved.subrange(0, jj + 1)[jj] == moved[jj]);
                        assert(kk != moved[jj]);
                        assert(!moved.subrange(0, jj).contains(kk)) by {
                            if moved.subrange(0, jj).contains(kk) {
                                let t = choose|t: int|
                                    0 <= t < jj && moved.subrange(0, jj)[t] == kk;
                                assert(moved.subrange(0, jj + 1)[t] == kk);
                            }
                        }
                    }
                }
            }
            proof {
                assert(moved.subrange(0, n as int) == moved);
            }
        }
        proof {
            let post = *self;
            let new_len = post.values@.len();
            assert(new_len == pre.values@.len() - 1);
            // Keys of the displaced last slot are exactly the moved list.
            assert forall|k: K| #[trigger] post.key_map@.contains_key(k) implies {
                &&& (post.key_map@[k] as int) < post.values@.len()
                &&& post.slot_keys@[post.key_map@[k] as int]@.contains(k)
                &&& post.key_map@[k] == (if pre.key_map@[k] as int == last {
                    slot
                } else {
                    pre.key_map@[k]
                })
            } by {
                assert(pre.key_map@.contains_key(k));
                let s = pre.key_map@[k] as int;
                assert(s != slot as int) by {
                    if s == slot as int {
                        assert(pre.keys_at(slot as int).contains(k));
                        assert(pre.keys_at(slot as int).remove(k).len() + 1 == pre.keys_at(
                            slot as int,
                        ).len());
                    }
                }
                if s == last {
                    assert(slot as int != last);
                    assert(pre.slot_keys@[s]@.contains(k));
                    assert(moved.contains(k));
                    let t = choose|t: int| 0 <= t < moved.len() && moved[t] == k;
                    assert(post.key_map@[k] as int == slot as int);
                    assert(post.slot_keys@[slot as int]@.contains(k));
                } else {
                    if slot as int != new_len {
                        assert(!moved.contains(k)) by {
                            if moved.contains(k) {
                                let t = choose|t: int| 0 <= t < moved.len() && moved[t] == k;
                                assert(pre.slot_keys@[last]@[t] == k);
                                assert(pre.key_map@[k] as int == last);
                            }
                        }
                        assert(!moved.subrange(0, moved.len() as int).contains(k));
                    }
                    assert(post.key_map@[k] == pre.key_map@[k]);
                    assert(s < new_len);
                    assert(post.slot_keys@[s]@ == pre.slot_keys@[s]@);
                }
            }
            assert forall|i: int, j2: int|
                0 <= i < post.slot_keys@.len() && 0 <= j2 < post.slot_keys@[i]@.len() implies {
                &&& post.key_map@.contains_key(post.slot_keys@[i]@[j2])
                &&& post.key_map@[post.slot_keys@[i]@[j2]] as int == i
            } by {
                let k = post.slot_keys@[i]@[j2];
                if i == slot as int && slot as int != new_len {
                    assert(k == moved[j2]);
                    assert(pre.slot_keys@[last]@[j2] == k);
                    assert(pre.key_map@.contains_key(k) && pre.key_map@[k] as int == last);
                    assert(post.key_map@.contains_key(k));
                } else {
                    assert(post.slot_keys@[i]@ == pre.slot_keys@[i]@);
                    assert(pre.key_map@.contains_key(k) && pre.key_map@[k] as int == i);
                    assert(i != last);
                    if slot as int != new_len {
                        assert(!moved.contains(k)) by {
                            if moved.contains(k) {
                                let t = choose|t: int| 0 <= t < moved.len() && moved[t] == k;
                                assert(pre.slot_keys@[last]@[t] == k);
                            }
                        }
                        assert(!moved.subrange(0, moved.len() as int).contains(k));
                    }
                    assert(post.key_map@[k] == pre.key_map@[k]);
                }
            }
            assert forall|i: int| 0 <= i < post.slot_keys@.len() implies (
            #[trigger] post.slot_keys@[i]@).no_duplicates() by {
                if i == slot as int && slot as int != new_len {
                    assert(post.slot_keys@[i]@ == pre.slot_keys@[last]@);
                } else {
                    assert(post.slot_keys@[i]@ == pre.slot_keys@[i]@);
                }
            }
            assert(post.wf());
            assert(post.slot_map() =~= Self::repointed(pre.slot_map(), last, slot));
        }
        value
    }

    /// Counts the number of references to a particular value index.
    fn count_references(&self, index: usize) -> (r: usize)
        requires
            self.wf(),
            (index as int) < self.value_seq().len(),
        ensures
            r == self.ref_count(index as int),
    {
        proof {
            self.lemma_slot_list_is_keys_at(index as int);
        }
        self.slot_keys[index].len()
    }
}

impl<K: Eq + Hash + Clone, V: PartialEq> vstd::std_specs::cmp::PartialEqSpecImpl for MultiKeyMap<K, V> {
    closed spec fn obeys_eq_spec() -> bool {
        well_behaved_key::<K>() && V::obeys_eq_spec()
    }

    closed spec fn eq_spec(&self, other: &Self) -> bool {
        &&& self.values@.len() == other.values@.len()
        &&& forall|i: int, j: int|
            0 <= i < self.slot_keys@.len() && 0 <= j < self.slot_keys@[i]@.len() ==> {
                let k = #[trigger] self.slot_keys@[i]@[j];
                &&& other.key_map@.contains_key(k)
                &&& (other.key_map@[k] as int) < other.values@.len()
                &&& i < self.values@.len()
                &&& self.values@[i].eq_spec(&other.values@[other.key_map@[k] as int])
            }
    }
}

impl<K: Eq + Hash + Clone, V: PartialEq> PartialEq for MultiKeyMap<K, V> {
    /// Compares two `MultiKeyMap` instances for equality: they must hold the
    /// same number of values, and each key of `self` must be present in
    /// `other` and resolve there to a value equal to its value in `self`.
    fn eq(&self, other: &Self) -> (r: bool) {
        if self.values.len() != other.values.len() {
            return false;
        }
        let n = self.slot_keys.len();
        let mut i: usize = 0;
        while i < n
            invariant
                n == self.slot_keys@.len(),
                i <= n,
                self.values@.len() == other.values@.len(),
                well_behaved_key::<K>() && V::obeys_eq_spec() ==> forall|i2: int, j2: int|
                    0 <= i2 < i as int && 0 <= j2 < self.slot_keys@[i2]@.len() ==> {
                        let k = #[trigger] self.slot_keys@[i2]@[j2];
                        &&& other.key_map@.contains_key(k)
                        &&& (other.key_map@[k] as int) < other.values@.len()
                        &&& i2 < self.values@.len()
                        &&& self.values@[i2].eq_spec(&other.values@[other.key_map@[k] as int])
                    },
            decreases n - i,
        {
            let m = self.slot_keys[i].len();
            let mut j: usize = 0;
            while j < m
                invariant
                    n == self.slot_keys@.len(),
                    i < n,
                    m == self.slot_keys@[i as int]@.len(),
                    j <= m,
                    self.values@.len() == other.values@.len(),
                    well_behaved_key::<K>() && V::obeys_eq_spec() ==> forall|i2: int, j2: int|
                        (0 <= i2 < i as int && 0 <= j2 < self.slot_keys@[i2]@.len()) || (i2
                            == i as int && 0 <= j2 < j as int) ==> {
                            let k = #[trigger] self.slot_keys@[i2]@[j2];
                            &&& other.key_map@.contains_key(k)
                            &&& (other.key_map@[k] as int) < other.values@.len()
                            &&& i2 < self.values@.len()
                            &&& self.values@[i2].eq_spec(&other.values@[other.key_map@[k] as int])
                        },
                decreases m - j,
            {
                let k = &self.slot_keys[i][j];
                let ok: bool = match other.key_map.get(k) {
                    None => false,
                    Some(oi) => {
                        let oi = *oi;
                        if i < self.values.len() && oi < other.values.len() {
                            self.values[i] == other.values[oi]
                        } else {
                            false
                        }
                    }
                };
                if !ok {
                    return false;
                }
                j += 1;
            }
            i += 1;
        }
        true
    }
}

impl<K: Eq + Hash + Clone, V: PartialEq> Eq for MultiKeyMap<K, V> {}

impl<K: Eq + Hash + Clone, V: PartialEq> MultiKeyMap<K, V> {
    /// Equality on stores follows the key structure: two well-formed stores
    /// compare equal exactly when they hold the same number of values and
    /// every key of the left store is present in the right one, resolving to
    /// an equal value. (The key sets then coincide whenever value equality
    /// distinguishes the stored values; the comparison itself only walks the
    /// left store's keys.)
    pub proof fn lemma_eq_spec_characterized(&self, other: &Self)
        requires
            self.wf(),
            other.wf(),
            V::obeys_eq_spec(),
        ensures
            Self::obeys_eq_spec(),
            self.eq_spec(other) <==> {
                &&& self.value_seq().len() == other.value_seq().len()
                &&& forall|k: K| #[trigger]
                    self.slot_map().contains_key(k) ==> {
                        &&& other.slot_map().contains_key(k)
                        &&& self.value_seq()[self.slot_map()[k] as int].eq_spec(
                            &other.value_seq()[other.slot_map()[k] as int],
                        )
                    }
            },
    {
        let clean = {
            &&& self.value_seq().len() == other.value_seq().len()
            &&& forall|k: K| #[trigger]
                self.slot_map().contains_key(k) ==> {
                    &&& other.slot_map().contains_key(k)
                    &&& self.value_seq()[self.slot_map()[k] as int].eq_spec(
                        &other.value_seq()[other.slot_map()[k] as int],
                    )
                }
        };
        if self.eq_spec(other) {
            assert forall|k: K| #[trigger] self.slot_map().contains_key(k) implies {
                &&& other.slot_map().contains_key(k)
                &&& self.value_seq()[self.slot_map()[k] as int].eq_spec(
                    &other.value_seq()[other.slot_map()[k] as int],
                )
            } by {
                let i = self.key_map@[k] as int;
                assert(self.slot_keys@[i]@.contains(k));
                let j = choose|j: int| 0 <= j < self.slot_keys@[i]@.len() && self.slot_keys@[i]@[j]
                    == k;
                assert(self.slot_keys@[i]@[j] == k);
            }
        }
        if clean {
            assert forall|i: int, j: int|
                0 <= i < self.slot_keys@.len() && 0 <= j < self.slot_keys@[i]@.len() implies {
                let k = #[trigger] self.slot_keys@[i]@[j];
                &&& other.key_map@.contains_key(k)
                &&& (other.key_map@[k] as int) < other.values@.len()
                &&& i < self.values@.len()
                &&& self.values@[i].eq_spec(&other.values@[other.key_map@[k] as int])
            } by {
                let k = self.slot_keys@[i]@[j];
                assert(self.key_map@.contains_key(k) && self.key_map@[k] as int == i);
                assert(self.slot_map().contains_key(k));
            }
        }
    }
}

impl<K: Eq + Hash + Clone, V: Clone> Clone for MultiKeyMap<K, V> {
    /// Creates a deep copy of the `MultiKeyMap`: the clone holds the same
    /// key-to-slot table, and slot for slot a clone of each value; it shares
    /// no storage with the original.
    fn clone(&self) -> (r: Self)
        ensures
            well_behaved_key::<K>() ==> {
                &&& r.slot_map() == self.slot_map()
                &&& r.value_seq().len() == self.value_seq().len()
                &&& forall|i: int|
                    0 <= i < self.value_seq().len() ==> cloned::<V>(
                        self.value_seq()[i],
                        #[trigger] r.value_seq()[i],
                    )
                &&& self.wf() ==> r.wf()
            },
    {
        let r = MultiKeyMap {
            key_map: self.key_map.clone(),
            values: self.values.clone(),
            slot_keys: self.slot_keys.clone(),
        };
        proof {
            if well_behaved_key::<K>() {
                assert(r.key_map@ == self.key_map@);
                assert forall|i: int| 0 <= i < self.slot_keys@.len() implies r.slot_keys@[i]@
                    == self.slot_keys@[i]@ by {
                    assert(cloned::<Vec<K>>(self.slot_keys@[i], r.slot_keys@[i]));
                    if self.slot_keys@[i] == r.slot_keys@[i] {
                    } else {
                        assert forall|t: int| 0 <= t < r.slot_keys@[i]@.len() implies r.slot_keys@[i]@[t]
                            == self.slot_keys@[i]@[t] by {
                            assert(cloned::<K>(self.slot_keys@[i]@[t], r.slot_keys@[i]@[t]));
                        }
                        assert(r.slot_keys@[i]@ =~= self.slot_keys@[i]@);
                    }
                }
                if self.wf() {
                    assert forall|k: K| #[trigger] r.key_map@.contains_key(k) implies {
                        &&& (r.key_map@[k] as int) < r.values@.len()
                        &&& r.slot_keys@[r.key_map@[k] as int]@.contains(k)
                    } by {
                        assert(self.key_map@.contains_key(k));
                        assert(self.slot_keys@[self.key_map@[k] as int]@.contains(k));
                    }
                    assert(r.wf());
                }
            }
        }
        r
    }
}

} // verus!
