//! Things under numbers.
use std::collections::BTreeMap;
use vstd::prelude::*;
use vstd::std_specs::btree::{group_btree_axioms, increasing_seq};
use vstd::std_specs::cmp::OrdSpec;
use vstd::std_specs::iter::IteratorSpec;

verus! {

/// Things under numbers.
pub struct IdMap<V> {
    map: BTreeMap<usize, V>,
}

impl<V> View for IdMap<V> {
    type V = Map<usize, V>;

    closed spec fn view(&self) -> Map<usize, V> {
        self.map@
    }
}

/// Whether `ids` are the numbers that there is something under, the smallest first.
pub open spec fn ids_of<V>(map: Map<usize, V>, ids: Seq<usize>) -> bool {
    &&& forall|i: int, j: int| 0 <= i < j < ids.len() ==> ids[i] < ids[j]
    &&& forall|i: int| 0 <= i < ids.len() ==> map.contains_key(#[trigger] ids[i])
    &&& forall|id: usize| #[trigger] map.contains_key(id) ==> ids.contains(id)
}

/// `BTreeMap::get_mut`: what is under a number, to be changed.
#[verifier::external_body]
fn map_get_mut<V>(map: &mut BTreeMap<usize, V>, id: usize) -> (r: Option<&mut V>)
    ensures
        match r {
            Some(v) => {
                &&& old(map)@.contains_key(id)
                &&& *v == old(map)@[id]
                &&& final(map)@ == old(map)@.insert(id, *final(v))
            },
            None => !old(map)@.contains_key(id) && final(map)@ == old(map)@,
        },
{
    map.get_mut(&id)
}

impl<V> IdMap<V> {
    pub fn new() -> (r: Self)
        ensures
            r@ == Map::<usize, V>::empty(),
    {
        IdMap { map: BTreeMap::new() }
    }

    pub fn len(&self) -> (r: usize)
        ensures
            r == self@.len(),
    {
        broadcast use group_btree_axioms;

        self.map.len()
    }

    /// Puts something under a number.
    pub fn insert(&mut self, id: usize, v: V)
        ensures
            final(self)@ == old(self)@.insert(id, v),
    {
        broadcast use group_btree_axioms;

        let _ = self.map.insert(id, v);
    }

    /// Takes what is under a number out.
    pub fn remove(&mut self, id: usize) -> (r: Option<V>)
        ensures
            final(self)@ == old(self)@.remove(id),
            match r {
                Some(v) => old(self)@.contains_key(id) && v == old(self)@[id],
                None => !old(self)@.contains_key(id),
            },
    {
        broadcast use group_btree_axioms;

        self.map.remove(&id)
    }

    /// What is under a number, to be changed.
    pub fn get_mut(&mut self, id: usize) -> (r: Option<&mut V>)
        ensures
            match r {
                Some(v) => {
                    &&& old(self)@.contains_key(id)
                    &&& *v == old(self)@[id]
                    &&& final(self)@ == old(self)@.insert(id, *final(v))
                },
                None => !old(self)@.contains_key(id) && final(self)@ == old(self)@,
            },
    {
        map_get_mut(&mut self.map, id)
    }

    /// The numbers that there is something under, the smallest first.
    pub fn ids(&self) -> (r: Vec<usize>)
        ensures
            ids_of(self@, r@),
    {
        broadcast use group_btree_axioms;

        let mut ids: Vec<usize> = Vec::new();
        let iter = self.map.iter();
        let ghost all = iter.remaining();
        for pair in it: iter
            invariant
                it.seq() == all,
                ids@.len() == it.index(),
                forall|j: int| 0 <= j < ids@.len() ==> ids@[j] == *(#[trigger] all[j]).0,
        {
            ids.push(*pair.0);
        }
        proof {
            let keys = all.map_values(|kv: (&usize, &V)| *kv.0);
            assert(ids@ =~= keys);
            assert(increasing_seq(keys));
            assert forall|i: int, j: int| 0 <= i < j < ids@.len() implies ids@[i] < ids@[j] by {
                assert(keys[i].cmp_spec(&keys[j]) is Less);
            }
            assert forall|id: usize| #[trigger] self@.contains_key(id) implies ids@.contains(
                id,
            ) by {
                let pair = (&id, &self@[id]);
                assert(all.contains(pair));
                let j = choose|j: int| 0 <= j < all.len() && all[j] == pair;
                assert(ids@[j] == id);
            }
        }
        ids
    }
}

} // verus!
