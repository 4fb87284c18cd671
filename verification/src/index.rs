//! Values by name, in a list that a `dashmap::DashMap` finds its way into.
//!
//! The hash map holds the place of each value in the list, whatever the values are, so that
//! what is known of the one kind of hash map serves them all.

use vstd::prelude::*;

verus! {

/// The hash map of the `dashmap` crate.
#[verifier::external_type_specification]
#[verifier::external_body]
#[verifier::reject_recursive_types(K)]
#[verifier::reject_recursive_types(V)]
#[verifier::reject_recursive_types(S)]
pub struct ExDashMap<K, V, S>(dashmap::DashMap<K, V, S>);

/// What a hash map from texts to slots holds.
pub uninterp spec fn slots_of(map: dashmap::DashMap<String, usize>) -> Map<Seq<char>, usize>;

/// Calls `dashmap::DashMap::new`, which makes a map that holds nothing.
#[verifier::external_body]
fn new_slots() -> (res: dashmap::DashMap<String, usize>)
    ensures
        slots_of(res).dom() == Set::<Seq<char>>::empty(),
{
    dashmap::DashMap::new()
}

/// Calls `dashmap::DashMap::get`, which gives the value of the key where there is one, and
/// copies the value.
#[verifier::external_body]
fn slot_of(map: &dashmap::DashMap<String, usize>, key: &str) -> (res: Option<usize>)
    ensures
        (match res {
            Some(slot) => slots_of(*map).contains_pair(key@, slot),
            None => !slots_of(*map).contains_key(key@),
        }),
{
    map.get(key).map(|slot| *slot.value())
}

/// Calls `dashmap::DashMap::insert`, which gives the key the value in place of what it had,
/// leaves every other key alone, and returns what the key had.
///
/// The map is held alone, so that no other holder of a reference can interfere.
#[verifier::external_body]
fn put_slot(map: &mut dashmap::DashMap<String, usize>, key: String, slot: usize) -> (res: Option<
    usize,
>)
    ensures
        slots_of(*final(map)) == slots_of(*old(map)).insert(key@, slot),
        (match res {
            Some(before) => slots_of(*old(map)).contains_pair(key@, before),
            None => !slots_of(*old(map)).contains_key(key@),
        }),
{
    map.insert(key, slot)
}

/// Calls `dashmap::DashMap::remove`, which takes the key out of the map with its value,
/// leaves every other key alone, and returns what the key had.
///
/// The map is held alone, so that no other holder of a reference can interfere.
#[verifier::external_body]
fn take_slot(map: &mut dashmap::DashMap<String, usize>, key: &str) -> (res: Option<usize>)
    ensures
        slots_of(*final(map)) == slots_of(*old(map)).remove(key@),
        (match res {
            Some(before) => slots_of(*old(map)).contains_pair(key@, before),
            None => !slots_of(*old(map)).contains_key(key@),
        }),
{
    map.remove(key).map(|entry| entry.1)
}

/// Values by name. Each name has at most one value.
pub struct Index<V> {
    slots: dashmap::DashMap<String, usize>,
    entries: Vec<(String, V)>,
}

impl<V> View for Index<V> {
    type V = Map<Seq<char>, V>;

    closed spec fn view(&self) -> Map<Seq<char>, V> {
        Map::new(
            |key: Seq<char>| slots_of(self.slots).contains_key(key),
            |key: Seq<char>| self.entries@[slots_of(self.slots)[key] as int].1,
        )
    }
}

impl<V> Index<V> {
    /// Whether the hash map and the list agree: each name in the list has the slot where it
    /// stands, and each slot in the map is where its name stands.
    pub closed spec fn wf(self) -> bool {
        &&& forall|i: int|
            0 <= i < self.entries@.len() ==> slots_of(self.slots).contains_pair(
                (#[trigger] self.entries@[i]).0@,
                i as usize,
            )
        &&& forall|key: Seq<char>| #[trigger]
            slots_of(self.slots).contains_key(key) ==> slots_of(self.slots)[key]
                < self.entries@.len() && self.entries@[slots_of(self.slots)[key] as int].0@
                == key
    }

    /// The names, in the order of the list.
    pub closed spec fn keys(self) -> Seq<Seq<char>> {
        self.entries@.map_values(|e: (String, V)| e.0@)
    }

    /// Every name with a value stands in the list of names, once, and no other does.
    pub proof fn keys_are_the_domain(&self)
        requires
            self.wf(),
        ensures
            self.keys().no_duplicates(),
            forall|key: Seq<char>| self.keys().contains(key) <==> #[trigger] self@.contains_key(
                key,
            ),
            self@.dom() == self.keys().to_set(),
            self@.dom().finite(),
            self@.dom().len() == self.keys().len(),
    {
        let keys = self.keys();
        assert(self.entries@.len() == self.entries.len());
        assert forall|i: int, j: int|
            0 <= i < keys.len() && 0 <= j < keys.len() && i != j implies keys[i] != keys[j] by {
            assert(keys[i] == self.entries@[i].0@);
            assert(keys[j] == self.entries@[j].0@);
            assert(slots_of(self.slots).contains_pair(self.entries@[i].0@, i as usize));
            assert(slots_of(self.slots).contains_pair(self.entries@[j].0@, j as usize));
        }
        assert forall|key: Seq<char>| keys.contains(key) <==> #[trigger] self@.contains_key(
            key,
        ) by {
            if keys.contains(key) {
                let i = choose|i: int| 0 <= i < keys.len() && keys[i] == key;
                assert(keys[i] == self.entries@[i].0@);
                assert(slots_of(self.slots).contains_pair(self.entries@[i].0@, i as usize));
            }
            if self@.contains_key(key) {
                assert(slots_of(self.slots).contains_key(key));
                let i = slots_of(self.slots)[key] as int;
                assert(keys[i] == self.entries@[i].0@);
            }
        }
        assert(self@.dom() =~= keys.to_set()) by {
            assert forall|key: Seq<char>| self@.dom().contains(key) <==> keys.to_set().contains(
                key,
            ) by {
                assert(self@.contains_key(key) <==> keys.contains(key));
            }
        }
        keys.unique_seq_to_set();
        vstd::seq_lib::seq_to_set_is_finite(keys);
    }

    /// Makes an index without values.
    pub fn new() -> (res: Index<V>)
        ensures
            res.wf(),
            res@ == Map::<Seq<char>, V>::empty(),
    {
        let res: Index<V> = Index { slots: new_slots(), entries: Vec::new() };
        assert(res@ =~= Map::<Seq<char>, V>::empty());
        res
    }

    /// Returns how many names have a value.
    pub fn len(&self) -> (res: usize)
        requires
            self.wf(),
        ensures
            res == self@.dom().len(),
            res == self.keys().len(),
    {
        proof {
            self.keys_are_the_domain();
        }
        self.entries.len()
    }

    /// Returns the value of `key`.
    pub fn get(&self, key: &str) -> (res: Option<&V>)
        requires
            self.wf(),
        ensures
            (match res {
                Some(value) => self@.contains_pair(key@, *value),
                None => !self@.contains_key(key@),
            }),
    {
        match slot_of(&self.slots, key) {
            Some(slot) => {
                assert(slots_of(self.slots).contains_key(key@));
                Some(&self.entries[slot].1)
            },
            None => None,
        }
    }

    /// Returns the value of the name at `i` in the order of the list.
    pub fn value_at(&self, i: usize) -> (res: &V)
        requires
            self.wf(),
            i < self.keys().len(),
        ensures
            self@.contains_pair(self.keys()[i as int], *res),
    {
        assert(slots_of(self.slots).contains_pair(self.entries@[i as int].0@, i));
        &self.entries[i].1
    }

    /// Gives `key` the value `value`, in place of what it had.
    pub fn insert(&mut self, key: String, value: V)
        requires
            old(self).wf(),
        ensures
            final(self).wf(),
            final(self)@ == old(self)@.insert(key@, value),
    {
        let ghost slots = slots_of(self.slots);
        let ghost entries = self.entries@;
        match slot_of(&self.slots, key.as_str()) {
            Some(slot) => {
                assert(slots.contains_key(key@));
                assert(slots.contains_pair(entries[slot as int].0@, slot));
                self.entries[slot] = (key, value);
                proof {
                    assert(self.entries@ =~= entries.update(slot as int, (key, value)));
                    assert forall|i: int| 0 <= i < self.entries@.len() implies slots.contains_pair(
                        (#[trigger] self.entries@[i]).0@,
                        i as usize,
                    ) by {
                        assert(slots.contains_pair(entries[i].0@, i as usize));
                    }
                }
            },
            None => {
                let slot = self.entries.len();
                let name = key.clone();
                let _ = put_slot(&mut self.slots, key, slot);
                self.entries.push((name, value));
                proof {
                    assert(self.entries@ =~= entries.push((name, value)));
                    assert forall|i: int| 0 <= i < self.entries@.len() implies slots_of(
                        self.slots,
                    ).contains_pair((#[trigger] self.entries@[i]).0@, i as usize) by {
                        if i < entries.len() {
                            assert(slots.contains_pair(entries[i].0@, i as usize));
                        }
                    }
                    assert forall|k: Seq<char>| #[trigger]
                        slots_of(self.slots).contains_key(k) implies slots_of(self.slots)[k]
                        < self.entries@.len() && self.entries@[slots_of(self.slots)[k] as int].0@
                        == k by {
                        if k != name@ {
                            assert(slots.contains_key(k));
                        }
                    }
                }
            },
        }
        proof {
            assert forall|k: Seq<char>| k != key@ && slots.contains_key(
                k,
            ) implies #[trigger] slots[k] < entries.len() && entries[slots[k] as int].0@ == k by {
                assert(slots.contains_key(k));
            }
            assert(self@ =~= old(self)@.insert(key@, value));
        }
    }

    /// Takes the value of `key` out.
    pub fn remove(&mut self, key: &str) -> (res: Option<V>)
        requires
            old(self).wf(),
        ensures
            final(self).wf(),
            final(self)@ == old(self)@.remove(key@),
            (match res {
                Some(value) => old(self)@.contains_pair(key@, value),
                None => !old(self)@.contains_key(key@),
            }),
    {
        let ghost slots = slots_of(self.slots);
        let ghost entries = self.entries@;
        match take_slot(&mut self.slots, key) {
            Some(slot) => {
                assert(slots.contains_key(key@));
                assert(slots.contains_pair(entries[slot as int].0@, slot));
                let last = self.entries.len() - 1;
                let entry = self.entries.swap_remove(slot);
                if slot < last {
                    let moved = self.entries[slot].0.clone();
                    assert(slots.contains_pair(entries[last as int].0@, last));
                    let _ = put_slot(&mut self.slots, moved, slot);
                }
                proof {
                    let after = slots_of(self.slots);
                    assert forall|i: int| 0 <= i < self.entries@.len() implies after.contains_pair(
                        (#[trigger] self.entries@[i]).0@,
                        i as usize,
                    ) by {
                        assert(slots.contains_pair(entries[i].0@, i as usize));
                        assert(slots.contains_pair(entries[last as int].0@, last));
                    }
                    assert forall|k: Seq<char>| #[trigger] after.contains_key(k) implies after[k]
                        < self.entries@.len() && self.entries@[after[k] as int].0@ == k by {
                        assert(slots.contains_key(k));
                        assert(slots.contains_pair(entries[slots[k] as int].0@, slots[k]));
                    }
                    assert(self@ =~= old(self)@.remove(key@)) by {
                        assert forall|k: Seq<char>| after.contains_key(
                            k,
                        ) implies self.entries@[#[trigger] after[k] as int]
                            == entries[slots[k] as int] by {
                            assert(slots.contains_key(k));
                            assert(slots.contains_pair(entries[slots[k] as int].0@, slots[k]));
                        }
                    }
                }
                Some(entry.1)
            },
            None => {
                proof {
                    assert(slots_of(self.slots) =~= slots);
                    assert(self@ =~= old(self)@.remove(key@));
                }
                None
            },
        }
    }
}

} // verus!
