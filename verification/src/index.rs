//! The id bookkeeping of the HNSW vector index. The approximate
//! nearest-neighbour graph knows vectors by integer keys; the index knows
//! them by string ids. Each insert takes a fresh key from a counter and
//! records the id under it and the key under the id; a search names the
//! keys the graph answers with.

use crate::error::KeelError;
use crate::table::StrTable;
use crate::text::decimal_string;
use std::collections::HashMap;
use vstd::prelude::*;

verus! {

broadcast use vstd::std_specs::hash::group_hash_axioms;

/// The capacity to reserve before an insert into an index holding `size`
/// vectors with room for `capacity`: none while there is room, else twice
/// the capacity and at least 1024.
pub open spec fn capacity_to_reserve_spec(size: usize, capacity: usize) -> Option<usize> {
    if size < capacity {
        None
    } else if capacity * 2 < 1024 {
        Some(1024)
    } else if capacity * 2 > usize::MAX {
        Some(usize::MAX)
    } else {
        Some((capacity * 2) as usize)
    }
}

/// The capacity to reserve before an insert: none while there is room,
/// else twice the capacity (at most `usize::MAX`) and at least 1024.
pub fn capacity_to_reserve(size: usize, capacity: usize) -> (r: Option<usize>)
    ensures
        r == capacity_to_reserve_spec(size, capacity),
{
    if size < capacity {
        return None;
    }
    let doubled = if capacity > usize::MAX / 2 {
        usize::MAX
    } else {
        capacity * 2
    };
    if doubled < 1024 {
        Some(1024)
    } else {
        Some(doubled)
    }
}

/// The hits that can be named: for each key with an id, in order, the id
/// and the key's position among the answered keys.
pub open spec fn named_hits(keys: Seq<u64>, ids: Map<u64, Seq<char>>) -> Seq<(Seq<char>, usize)>
    decreases keys.len(),
{
    if keys.len() == 0 {
        Seq::empty()
    } else {
        let rest = named_hits(keys.drop_last(), ids);
        let k = keys.last();
        if ids.contains_key(k) {
            rest.push((ids[k], (keys.len() - 1) as usize))
        } else {
            rest
        }
    }
}

/// The id bookkeeping of an HNSW index over vectors of a fixed length.
pub struct HnswIds {
    dimensions: usize,
    id_map: StrTable,
    key_to_id: HashMap<u64, String>,
    key_counter: u64,
}

impl HnswIds {
    /// The latest key of each id.
    pub closed spec fn keys(&self) -> Map<Seq<char>, u64> {
        self.id_map.view()
    }

    /// The id of each key.
    pub closed spec fn ids(&self) -> Map<u64, Seq<char>> {
        self.key_to_id@.map_values(|s: String| s@)
    }

    /// The key the next insert takes.
    pub closed spec fn next_key(&self) -> u64 {
        self.key_counter
    }

    /// The number of components of the vectors.
    pub closed spec fn dims(&self) -> usize {
        self.dimensions
    }

    /// The id table holds each id once.
    pub closed spec fn wf(&self) -> bool {
        self.id_map.wf()
    }

    /// No ids yet, for vectors of `dimensions` components.
    pub fn new(dimensions: usize) -> (t: Self)
        ensures
            t.wf(),
            t.dims() == dimensions,
            t.keys() == Map::<Seq<char>, u64>::empty(),
            t.ids() == Map::<u64, Seq<char>>::empty(),
            t.next_key() == 0,
    {
        let t = HnswIds {
            dimensions,
            id_map: StrTable::new(),
            key_to_id: HashMap::new(),
            key_counter: 0,
        };
        assert(t.ids() =~= Map::<u64, Seq<char>>::empty());
        t
    }

    /// Accepts a vector (for `what`: a stored vector or a query) of `len`
    /// components when that is the index's length, else refuses it with a
    /// message that gives both lengths.
    pub fn check_len(&self, what: &str, len: usize) -> (r: Result<(), KeelError>)
        ensures
            r is Ok <==> len == self.dims(),
            r matches Err(e) ==> e is Index,
    {
        if len == self.dimensions {
            return Ok(());
        }
        let mut m = what.to_owned();
        m.append(" dimension mismatch: expected ");
        m.append(decimal_string(self.dimensions).as_str());
        m.append(", got ");
        m.append(decimal_string(len).as_str());
        Err(KeelError::Index(m))
    }

    /// Takes the next key. When the keys are used up, nothing is taken.
    pub fn claim_key(&mut self) -> (r: Result<u64, KeelError>)
        ensures
            final(self).dims() == old(self).dims(),
            final(self).keys() == old(self).keys(),
            final(self).ids() == old(self).ids(),
            final(self).wf() == old(self).wf(),
            r is Err <==> old(self).next_key() == u64::MAX,
            r matches Err(e) ==> e is Index && final(self).next_key() == old(self).next_key(),
            r matches Ok(k) ==> k == old(self).next_key() && final(self).next_key() == k + 1,
    {
        if self.key_counter == u64::MAX {
            return Err(KeelError::Index("key space exhausted".to_owned()));
        }
        let key = self.key_counter;
        self.key_counter = self.key_counter + 1;
        Ok(key)
    }

    /// Records `key` as `id`'s latest key and `id` as `key`'s id.
    pub fn bind(&mut self, id: &str, key: u64)
        requires
            old(self).wf(),
        ensures
            final(self).wf(),
            final(self).dims() == old(self).dims(),
            final(self).next_key() == old(self).next_key(),
            final(self).keys() == old(self).keys().insert(id@, key),
            final(self).ids() == old(self).ids().insert(key, id@),
    {
        self.id_map.set(id, key);
        self.key_to_id.insert(key, id.to_owned());
        assert(self.ids() =~= old(self).ids().insert(key, id@));
    }

    /// Forgets `id`: its latest key leaves both tables and is returned (its
    /// vector is to leave the graph). An absent id changes nothing.
    pub fn unbind(&mut self, id: &str) -> (r: Option<u64>)
        requires
            old(self).wf(),
        ensures
            final(self).wf(),
            final(self).dims() == old(self).dims(),
            final(self).next_key() == old(self).next_key(),
            final(self).keys() == old(self).keys().remove(id@),
            match r {
                Some(k) => {
                    &&& old(self).keys().contains_key(id@)
                    &&& k == old(self).keys()[id@]
                    &&& final(self).ids() == old(self).ids().remove(k)
                },
                None => !old(self).keys().contains_key(id@) && final(self).ids() == old(
                    self,
                ).ids(),
            },
    {
        match self.id_map.remove(id) {
            Some(key) => {
                self.key_to_id.remove(&key);
                assert(self.ids() =~= old(self).ids().remove(key));
                Some(key)
            },
            None => None,
        }
    }

    /// For the keys a search answered with, the ids of those that have one,
    /// each with the key's position, in order.
    pub fn name_hits(&self, keys: &Vec<u64>) -> (r: Vec<(String, usize)>)
        ensures
            r@.map_values(|p: (String, usize)| (p.0@, p.1)) == named_hits(keys@, self.ids()),
    {
        let mut out: Vec<(String, usize)> = Vec::new();
        let mut i: usize = 0;
        while i < keys.len()
            invariant
                i <= keys@.len(),
                out@.map_values(|p: (String, usize)| (p.0@, p.1)) == named_hits(
                    keys@.subrange(0, i as int),
                    self.ids(),
                ),
            decreases keys@.len() - i,
        {
            let key = keys[i];
            assert(keys@.subrange(0, i + 1 as int).drop_last() =~= keys@.subrange(0, i as int));
            match self.key_to_id.get(&key) {
                Some(id) => {
                    let ghost pre = out@.map_values(|p: (String, usize)| (p.0@, p.1));
                    out.push((id.clone(), i));
                    assert(out@.map_values(|p: (String, usize)| (p.0@, p.1)) =~= pre.push(
                        (id@, i),
                    ));
                },
                None => {},
            }
            i = i + 1;
        }
        assert(keys@.subrange(0, i as int) =~= keys@);
        out
    }

    /// Whether `id` has a key.
    pub fn contains(&self, id: &str) -> (r: bool)
        requires
            self.wf(),
        ensures
            r == self.keys().contains_key(id@),
    {
        self.id_map.get(id).is_some()
    }

    /// The number of components of the vectors.
    pub fn dimensions(&self) -> (r: usize)
        ensures
            r == self.dims(),
    {
        self.dimensions
    }
}

} // verus!
