//! The map of the standard-library layer: a [`hashbrown::HashMap`] whose
//! hash builder defaults to std's randomly keyed `RandomState`.

use super::hashbrown;
use super::hashbrown::table_model_holds;
use std::collections::hash_map::RandomState;
use std::hash::{BuildHasher, Hash};
use vstd::prelude::*;

verus! {

/// `RandomState::new` of std: a hash builder with fresh random keys. Nothing
/// is stated of the keys.
pub assume_specification[ RandomState::new ]() -> RandomState;

/// A hash map from `K` to `V` whose keys are hashed by the builder `S`.
#[verifier::reject_recursive_types(S)]
pub struct HashMap<K, V, S = RandomState> {
    base: hashbrown::HashMap<K, V, S>,
}

impl<K, V, S> View for HashMap<K, V, S> {
    type V = Map<K, V>;

    closed spec fn view(&self) -> Map<K, V> {
        self.base@
    }
}

impl<K, V> HashMap<K, V, RandomState> {
    /// An empty map with a randomly keyed hash builder.
    pub fn new() -> (m: HashMap<K, V, RandomState>)
        ensures
            m@ == Map::<K, V>::empty(),
            m@.dom().finite(),
    {
        HashMap::with_hasher(RandomState::new())
    }
}

impl<K, V> HashMap<K, V, RandomState> {
    /// Every map with the default hash builder holds finitely many entries,
    /// so its length is a count of its keys.
    pub proof fn lemma_view_finite(&self)
        ensures
            self@.dom().finite(),
    {
        self.base.lemma_view_finite();
    }
}

impl<K, V, S> HashMap<K, V, S> {
    /// The hash builder that the map was made with, and that hashes its keys.
    pub closed spec fn hash_builder(&self) -> S {
        self.base.hash_builder()
    }

    /// An empty map that hashes its keys with `hash_builder`.
    pub fn with_hasher(hash_builder: S) -> (m: HashMap<K, V, S>)
        ensures
            m@ == Map::<K, V>::empty(),
            m@.dom().finite(),
            m.hash_builder() == hash_builder,
    {
        HashMap { base: hashbrown::HashMap::with_hasher(hash_builder) }
    }

    /// An iterator over all entries, each exactly once, in an order that the
    /// table decides.
    pub fn iter(&self) -> (it: Iter<'_, K, V>)
        ensures
            table_model_holds::<K, S>() ==> it.lists(self@),
    {
        Iter { base: self.base.iter() }
    }
}

impl<K: Eq + Hash, V, S: BuildHasher> HashMap<K, V, S> {
    /// Inserts `v` under `k`. Returns the value that `k` had, or `None` when
    /// it had none; the key already stored is kept.
    pub fn insert(&mut self, k: K, v: V) -> (r: Option<V>)
        ensures
            final(self).hash_builder() == old(self).hash_builder(),
            table_model_holds::<K, S>() ==> {
                &&& final(self)@ == old(self)@.insert(k, v)
                &&& old(self)@.dom().finite() ==> final(self)@.dom().finite()
                &&& match r {
                    Some(old_v) => old(self)@.contains_key(k) && old_v == old(self)@[k],
                    None => !old(self)@.contains_key(k),
                }
            },
    {
        self.base.insert(k, v)
    }
}

impl<K, V, S: Default> Default for HashMap<K, V, S> {
    /// An empty map with the default hash builder of `S`.
    fn default() -> (m: HashMap<K, V, S>)
        ensures
            m@ == Map::<K, V>::empty(),
            m@.dom().finite(),
    {
        HashMap::with_hasher(S::default())
    }
}

/// An iterator over the entries of a [`HashMap`].
pub struct Iter<'a, K, V> {
    base: hashbrown::Iter<'a, K, V>,
}

impl<'a, K, V> Iter<'a, K, V> {
    /// The entries not yet returned, in the order they will come.
    pub closed spec fn remaining(&self) -> Seq<(K, V)> {
        self.base.remaining()
    }

    /// The entries yet to come are those of `m`, each exactly once.
    pub open spec fn lists(&self, m: Map<K, V>) -> bool {
        &&& self.remaining().len() == m.len()
        &&& forall|i: int|
            0 <= i < self.remaining().len() ==> m.contains_key(#[trigger] self.remaining()[i].0)
                && m[self.remaining()[i].0] == self.remaining()[i].1
        &&& forall|k: K| #[trigger] m.contains_key(k) ==> self.remaining().contains((k, m[k]))
        &&& forall|i: int, j: int|
            0 <= i < j < self.remaining().len() ==> #[trigger] self.remaining()[i].0
                != #[trigger] self.remaining()[j].0
    }

    /// Returns the next entry, or `None` when all have been returned.
    pub fn next(&mut self) -> (r: Option<(&'a K, &'a V)>)
        ensures
            old(self).remaining().len() > 0 ==> {
                &&& r matches Some((k, v)) && (*k, *v) == old(self).remaining()[0]
                &&& final(self).remaining() == old(self).remaining().drop_first()
            },
            old(self).remaining().len() == 0 ==> {
                &&& r is None
                &&& final(self).remaining() == old(self).remaining()
            },
    {
        self.base.next()
    }

    /// The number of entries still to come, as a lower and an upper bound.
    pub fn size_hint(&self) -> (r: (usize, Option<usize>))
        ensures
            r.0 == self.remaining().len(),
            r.1 == Some(self.remaining().len() as usize),
    {
        self.base.size_hint()
    }
}

/// After `insert(k, v)` the map holds `v` under `k`, and every other key
/// keeps its entry, or its absence.
pub proof fn lemma_insert_then_read<K, V>(m: Map<K, V>, k: K, v: V, other: K)
    requires
        other != k,
    ensures
        m.insert(k, v).contains_key(k),
        m.insert(k, v)[k] == v,
        m.insert(k, v).contains_key(other) == m.contains_key(other),
        m.contains_key(other) ==> m.insert(k, v)[other] == m[other],
{
}

/// Inserting twice under one key: the second insert hands back the first
/// value, and the map holds the second.
pub proof fn lemma_insert_twice<K, V>(m: Map<K, V>, k: K, v1: V, v2: V)
    ensures
        m.insert(k, v1).contains_key(k) && m.insert(k, v1)[k] == v1,
        m.insert(k, v1).insert(k, v2) == m.insert(k, v2),
{
    assert(m.insert(k, v1).insert(k, v2) =~= m.insert(k, v2));
}

/// Inserting the same entry twice changes nothing more than inserting it
/// once.
pub proof fn lemma_insert_idempotent<K, V>(m: Map<K, V>, k: K, v: V)
    ensures
        m.insert(k, v).insert(k, v) == m.insert(k, v),
{
    assert(m.insert(k, v).insert(k, v) =~= m.insert(k, v));
}

/// Inserts under distinct keys commute.
pub proof fn lemma_inserts_commute<K, V>(m: Map<K, V>, k1: K, v1: V, k2: K, v2: V)
    requires
        k1 != k2,
    ensures
        m.insert(k1, v1).insert(k2, v2) == m.insert(k2, v2).insert(k1, v1),
{
    assert(m.insert(k1, v1).insert(k2, v2) =~= m.insert(k2, v2).insert(k1, v1));
}

/// Inserting into a map whose domain is finite adds one entry when the key
/// is new and none otherwise.
pub proof fn lemma_insert_len<K, V>(m: Map<K, V>, k: K, v: V)
    requires
        m.dom().finite(),
    ensures
        m.insert(k, v).len() == if m.contains_key(k) {
            m.len()
        } else {
            m.len() + 1
        },
{
    if m.contains_key(k) {
        assert(m.insert(k, v).dom() =~= m.dom());
    }
}

/// Two iterators over the same map yield the same entries, whatever their
/// order.
pub proof fn lemma_iters_agree<K, V>(it1: Iter<'_, K, V>, it2: Iter<'_, K, V>, m: Map<K, V>)
    requires
        it1.lists(m),
        it2.lists(m),
    ensures
        it1.remaining().to_set() == it2.remaining().to_set(),
{
    assert forall|e: (K, V)| it1.remaining().to_set().contains(e) implies it2.remaining().to_set().contains(e) by {
        let i = choose|i: int| 0 <= i < it1.remaining().len() && it1.remaining()[i] == e;
        assert(m.contains_key(it1.remaining()[i].0));
    }
    assert forall|e: (K, V)| it2.remaining().to_set().contains(e) implies it1.remaining().to_set().contains(e) by {
        let i = choose|i: int| 0 <= i < it2.remaining().len() && it2.remaining()[i] == e;
        assert(m.contains_key(it2.remaining()[i].0));
    }
    assert(it1.remaining().to_set() =~= it2.remaining().to_set());
}

/// An iterator over a map into which `v` was inserted under `k` yields the
/// entry `(k, v)`.
pub proof fn lemma_iter_yields_inserted<K, V>(it: Iter<'_, K, V>, m: Map<K, V>, k: K, v: V)
    requires
        it.lists(m.insert(k, v)),
    ensures
        it.remaining().contains((k, v)),
{
    assert(m.insert(k, v).contains_key(k));
}

/// An iterator over an empty map yields nothing.
pub proof fn lemma_iter_of_empty<K, V>(it: Iter<'_, K, V>)
    requires
        it.lists(Map::<K, V>::empty()),
    ensures
        it.remaining().len() == 0,
{
}

} // verus!
