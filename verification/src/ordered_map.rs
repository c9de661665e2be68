//! An insertion-ordered map, kept by `list_ordered_hashmap`.
//!
//! The functions marked `external_body` call into that crate. What they claim of it is not proved
//! here: it is what the crate's documentation and source say of each method.

use list_ordered_hashmap::OrderedHashMap;
use std::hash::Hash;
use vstd::prelude::*;
use vstd::std_specs::hash::obeys_key_model;

use crate::assoc::{holds, place_of, put, unique, value_of, without};
use crate::state::{emptied, Slot};

verus! {

/// The map type of `list_ordered_hashmap`, opaque to proofs.
#[verifier::external_type_specification]
#[verifier::external_body]
#[verifier::reject_recursive_types(K)]
#[verifier::reject_recursive_types(V)]
pub struct ExOrderedHashMap<K, V>(OrderedHashMap<K, V>);

/// A map that remembers the order in which its keys were first inserted.
///
/// `entries` records, for proofs only, what `inner` holds, front first. Nothing outside this
/// module touches either field.
#[verifier::reject_recursive_types(K)]
#[verifier::reject_recursive_types(V)]
pub struct OrderedMap<K, V> {
    inner: OrderedHashMap<K, V>,
    entries: Ghost<Seq<(K, V)>>,
}

impl<K, V> View for OrderedMap<K, V> {
    type V = Seq<(K, V)>;

    closed spec fn view(&self) -> Seq<(K, V)> {
        self.entries@
    }
}

/// The most entries one map can take: `index_list`, which stores them, numbers its places from 1
/// in 32 bits.
pub const MAX_ENTRIES: u64 = 4294967295;

impl<K, V> OrderedMap<K, V> {
    /// No key occurs twice.
    pub open spec fn wf(&self) -> bool {
        unique(self@)
    }

    /// Calls `OrderedHashMap::new`, which makes a map without entries.
    #[verifier::external_body]
    pub(crate) fn new() -> (map: Self)
        ensures
            map@ == Seq::<(K, V)>::empty(),
    {
        OrderedMap { inner: OrderedHashMap::new(), entries: Ghost(Seq::empty()) }
    }

    /// Calls `OrderedHashMap::len`, which counts the entries.
    #[verifier::external_body]
    pub(crate) fn len(&self) -> (n: usize)
        ensures
            n == self@.len(),
    {
        self.inner.len()
    }

    /// Calls `OrderedHashMap::values` and takes the first item: the value of the front entry.
    #[verifier::external_body]
    pub(crate) fn front(&self) -> (value: Option<&V>)
        ensures
            match value {
                Some(v) => self@.len() > 0 && *v == self@[0].1,
                None => self@.len() == 0,
            },
    {
        self.inner.values().next()
    }
}

impl<K: Clone + Eq + Hash, V> OrderedMap<K, V> {
    /// Calls `OrderedHashMap::insert`: a new key goes to the end and gives `None`; the value of a
    /// key that is there is replaced in place and handed back.
    #[verifier::external_body]
    pub(crate) fn insert(&mut self, key: K, value: V) -> (replaced: Option<V>)
        requires
            obeys_key_model::<K>(),
            old(self).wf(),
            holds(old(self)@, key) || old(self)@.len() < MAX_ENTRIES,
        ensures
            final(self)@ == put(old(self)@, key, value),
            replaced == value_of(old(self)@, key),
    {
        self.inner.insert(key, value)
    }

    /// Calls `OrderedHashMap::get_mut`: the value of a key that is there, to be changed in place.
    #[verifier::external_body]
    pub(crate) fn get_mut(&mut self, key: &K) -> (value: Option<&mut V>)
        requires
            obeys_key_model::<K>(),
            old(self).wf(),
        ensures
            value is Some <==> holds(old(self)@, *key),
            value is Some ==> *value->0 == old(self)@[place_of(old(self)@, *key)].1,
            value is Some ==> final(self)@ == old(self)@.update(
                place_of(old(self)@, *key),
                (*key, *final(value->0)),
            ),
            value is None ==> final(self)@ == old(self)@,
    {
        self.inner.get_mut(key)
    }

    /// Calls `OrderedHashMap::remove`: takes the entry of a key out and hands its value back; the
    /// other entries keep their order.
    #[verifier::external_body]
    pub(crate) fn remove(&mut self, key: &K) -> (removed: Option<V>)
        requires
            obeys_key_model::<K>(),
            old(self).wf(),
        ensures
            final(self)@ == without(old(self)@, *key),
            removed == value_of(old(self)@, *key),
    {
        self.inner.remove(key)
    }

    /// Calls `OrderedHashMap::pop_front`: takes the front entry, if the map has one.
    #[verifier::external_body]
    pub(crate) fn pop_front(&mut self) -> (front: Option<(K, V)>)
        requires
            obeys_key_model::<K>(),
            old(self).wf(),
        ensures
            match front {
                Some(entry) => {
                    &&& old(self)@.len() > 0
                    &&& entry == old(self)@[0]
                    &&& final(self)@ == old(self)@.drop_first()
                },
                None => old(self)@.len() == 0 && final(self)@ == old(self)@,
            },
    {
        self.inner.pop_front()
    }

    /// Calls `OrderedHashMap::clear`, which takes every entry out.
    #[verifier::external_body]
    pub(crate) fn clear(&mut self)
        ensures
            final(self)@ == Seq::<(K, V)>::empty(),
    {
        self.inner.clear()
    }
}

impl<K, V> OrderedMap<K, Slot<V>> {
    /// Calls `OrderedHashMap::for_each_mut`, which visits every entry once, with `Slot::forget`.
    #[allow(deprecated)]
    #[verifier::external_body]
    pub(crate) fn forget_all(&mut self)
        ensures
            final(self)@ == emptied(old(self)@),
    {
        self.inner.for_each_mut(|_, slot| slot.forget())
    }
}

} // verus!
