//! The hash table under the standard-library map: entries are kept in a
//! `std::collections::HashMap` built with the caller's hash builder.

use std::collections::hash_map::RandomState;
use std::collections::HashMap as StdHashMap;
use std::hash::{BuildHasher, Hash};
use vstd::prelude::*;
use vstd::std_specs::hash::{builds_valid_hashers, obeys_key_model};
use vstd::std_specs::iter::IteratorSpec;

verus! {

/// `HashMap::with_hasher` of std: per its documentation it creates an empty
/// map that uses the given hash builder.
pub assume_specification<K, V, S>[ StdHashMap::<K, V, S>::with_hasher ](hash_builder: S) -> (m: StdHashMap<K, V, S>)
    ensures
        m@ =~= Map::empty(),
;

/// The hash builder of a map that names none. No value of it can be made
/// outside this module and it builds no hasher: a map is built with a hash
/// builder of the caller's.
pub struct DefaultHashBuilder {
    no_value: (),
}

/// A hash map from `K` to `V` whose keys are hashed by the builder `S`.
#[verifier::reject_recursive_types(S)]
pub struct HashMap<K, V, S = DefaultHashBuilder> {
    table: StdHashMap<K, V, S>,
    made_with: Ghost<S>,
}

impl<K, V, S> View for HashMap<K, V, S> {
    type V = Map<K, V>;

    closed spec fn view(&self) -> Map<K, V> {
        self.table@
    }
}

/// The keys hash and compare as their values do, and the hash builder is a
/// proper one: the conditions under which the table behaves as a map.
pub open spec fn table_model_holds<K, S>() -> bool {
    obeys_key_model::<K>() && builds_valid_hashers::<S>()
}

impl<K, V, S> HashMap<K, V, S> {
    /// The hash builder that the map was made with, and that hashes its keys.
    pub closed spec fn hash_builder(&self) -> S {
        self.made_with@
    }

    /// An empty map that hashes its keys with `hash_builder`.
    pub fn with_hasher(hash_builder: S) -> (m: Self)
        ensures
            m@ == Map::<K, V>::empty(),
            m@.dom().finite(),
            m.hash_builder() == hash_builder,
    {
        let made_with = Ghost(hash_builder);
        HashMap { table: StdHashMap::with_hasher(hash_builder), made_with }
    }

    /// An iterator over all entries, each exactly once, in an order that the
    /// table decides.
    pub fn iter(&self) -> (it: Iter<'_, K, V>)
        ensures
            table_model_holds::<K, S>() ==> it.lists(self@),
    {
        let n = self.table.len();
        let mut inner = self.table.iter();
        let ghost all = inner.remaining();
        let mut items: Vec<(&K, &V)> = Vec::new();
        let mut i: usize = 0;
        proof {
            vstd::std_specs::hash::axiom_spec_hash_map_len(&self.table);
            vstd::std_specs::hash::axiom_spec_hash_map_iter(&self.table);
        }
        while i < n
            invariant
                0 <= i <= n,
                table_model_holds::<K, S>() ==> {
                    &&& n == all.len()
                    &&& i == items@.len()
                    &&& items@ == all.take(i as int)
                    &&& inner.remaining() == all.skip(i as int)
                    &&& inner.obeys_prophetic_iter_laws()
                },
            ensures
                table_model_holds::<K, S>() ==> i == n && items@ == all,
            decreases n - i,
        {
            match next_entry(&mut inner) {
                Some(kv) => {
                    items.push(kv);
                },
                None => {
                    break;
                },
            }
            i = i + 1;
        }
        let it = Iter { items, pos: 0 };
        proof {
            if table_model_holds::<K, S>() {
                let m = self@;
                let r = it.remaining();
                assert(it.items@.skip(0) == all);
                assert(r.len() == m.len());
                assert forall|j: int| 0 <= j < r.len() implies m.contains_key(#[trigger] r[j].0)
                    && m[r[j].0] == r[j].1 by {
                    assert(r[j] == (*all[j].0, *all[j].1));
                }
                assert forall|k: K| #[trigger] m.contains_key(k) implies r.contains((k, m[k])) by {
                    assert(all.contains((&k, &m[k])));
                    let j = choose|j: int| 0 <= j < all.len() && all[j] == (&k, &m[k]);
                    assert(r[j] == (k, m[k]));
                }
                assert forall|a: int, b: int| 0 <= a < b < r.len() implies #[trigger] r[a].0
                    != #[trigger] r[b].0 by {
                    if r[a].0 == r[b].0 {
                        assert(all[a] == all[b]);
                    }
                }
            }
        }
        it
    }
}

impl<K, V> HashMap<K, V, RandomState> {
    /// A map hashed by std's `RandomState` holds finitely many entries.
    pub proof fn lemma_view_finite(&self)
        ensures
            self@.dom().finite(),
    {
    }
}

impl<K: Eq + Hash, V, S: BuildHasher> HashMap<K, V, S> {
    /// Inserts `v` under `k`. Returns the value that `k` had, or `None` when
    /// it had none; the key already stored is kept.
    pub fn insert(&mut self, k: K, v: V) -> (r: Option<V>)
        ensures
            final(self).hash_builder() == old(self).hash_builder(),
            table_model_holds::<K, S>() ==> {
                &&& final(self)@ == old(self)@.insert(k, v)
                &&& old(self)@.dom().finite() ==> final(self)@.dom().finite()
                &&& match r {
                    Some(old_v) => old(self)@.contains_key(k) && old_v == old(self)@[k],
                    None => !old(self)@.contains_key(k),
                }
            },
    {
        self.table.insert(k, v)
    }
}

/// Takes the next item of an iterator that keeps the iterator laws.
fn next_entry<I: Iterator>(it: &mut I) -> (r: Option<I::Item>)
    ensures
        (*old(it)).obeys_prophetic_iter_laws() ==> {
            &&& (*final(it)).obeys_prophetic_iter_laws()
            &&& if (*old(it)).remaining().len() > 0 {
                &&& (*final(it)).remaining() == (*old(it)).remaining().drop_first()
                &&& r == Some((*old(it)).remaining()[0])
            } else {
                r is None
            }
        },
{
    it.next()
}

/// An iterator over the entries of a [`HashMap`].
pub struct Iter<'a, K, V> {
    items: Vec<(&'a K, &'a V)>,
    pos: usize,
}

impl<'a, K, V> Iter<'a, K, V> {
    #[verifier::type_invariant]
    spec fn position_in_range(&self) -> bool {
        self.pos <= self.items@.len()
    }

    /// The entries not yet returned, in the order they will come.
    pub closed spec fn remaining(&self) -> Seq<(K, V)> {
        self.items@.skip(self.pos as int).map_values(|e: (&K, &V)| (*e.0, *e.1))
    }

    /// The entries yet to come are those of `m`, each exactly once.
    pub open spec fn lists(&self, m: Map<K, V>) -> bool {
        &&& self.remaining().len() == m.len()
        &&& forall|i: int|
            0 <= i < self.remaining().len() ==> m.contains_key(#[trigger] self.remaining()[i].0)
                && m[self.remaining()[i].0] == self.remaining()[i].1
        &&& forall|k: K| #[trigger] m.contains_key(k) ==> self.remaining().contains((k, m[k]))
        &&& forall|i: int, j: int|
            0 <= i < j < self.remaining().len() ==> #[trigger] self.remaining()[i].0
                != #[trigger] self.remaining()[j].0
    }

    /// Returns the next entry, or `None` when all have been returned.
    pub fn next(&mut self) -> (r: Option<(&'a K, &'a V)>)
        ensures
            old(self).remaining().len() > 0 ==> {
                &&& r matches Some((k, v)) && (*k, *v) == old(self).remaining()[0]
                &&& final(self).remaining() == old(self).remaining().drop_first()
            },
            old(self).remaining().len() == 0 ==> {
                &&& r is None
                &&& final(self).remaining() == old(self).remaining()
            },
    {
        proof {
            use_type_invariant(&*self);
        }
        if self.pos < self.items.len() {
            let e = self.items[self.pos];
            self.pos = self.pos + 1;
            proof {
                assert(final(self).remaining() =~= old(self).remaining().drop_first());
            }
            Some(e)
        } else {
            None
        }
    }

    /// The number of entries still to come, as a lower and an upper bound.
    pub fn size_hint(&self) -> (r: (usize, Option<usize>))
        ensures
            r.0 == self.remaining().len(),
            r.1 == Some(self.remaining().len() as usize),
    {
        proof {
            use_type_invariant(self);
        }
        let n = self.items.len() - self.pos;
        (n, Some(n))
    }
}

} // verus!
