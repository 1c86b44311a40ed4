//! Eviction policies of the chunk store, and the least-recently-used one.
//!
//! The LRU policy keeps chunk ids in recency order, most recently used in
//! front. A write or an access moves the id to the front, a delete takes it
//! out, and when the store is over capacity the ids at the back are chosen
//! for eviction, least recently used first.

use crate::text::{
    lemma_index_of_first, lemma_index_of_first_none, lemma_no_dup_cons, lemma_remove_value_no_dup,
    str_equal, views,
};
use std::collections::VecDeque;
use vstd::prelude::*;

verus! {

/// A pluggable eviction policy: it is told of writes, accesses and deletes,
/// and chooses which ids leave when the store holds `current_count` chunks
/// for a capacity of `capacity`.
pub trait EvictionPolicy {
    fn select_evictions(&self, current_count: usize, capacity: usize) -> Vec<String>;

    fn on_access(&mut self, id: &str);

    fn on_write(&mut self, id: &str);

    fn on_delete(&mut self, id: &str);
}

/// The ids that an over-full store gives up: the last `k` of the recency
/// order, the least recently used first.
pub open spec fn lru_victims(order: Seq<Seq<char>>, k: int) -> Seq<Seq<char>> {
    let n = if k < order.len() {
        k
    } else {
        order.len() as int
    };
    Seq::new(n as nat, |i: int| order[order.len() - 1 - i])
}

/// The order after `id` is used: `id` in front, its earlier place gone.
pub open spec fn touched(order: Seq<Seq<char>>, id: Seq<char>) -> Seq<Seq<char>> {
    seq![id] + order.remove_value(id)
}

/// Least-recently-used eviction.
pub struct LruEvictionPolicy {
    access_order: VecDeque<String>,
}

impl LruEvictionPolicy {
    /// The ids, most recently used first.
    pub closed spec fn order(&self) -> Seq<Seq<char>> {
        views(self.access_order@)
    }

    /// A policy that has seen nothing.
    pub fn new() -> (p: Self)
        ensures
            p.order() == Seq::<Seq<char>>::empty(),
    {
        let p = LruEvictionPolicy { access_order: VecDeque::new() };
        assert(p.order() =~= Seq::<Seq<char>>::empty());
        p
    }

    /// Moves `id` to the front of the recency order.
    fn touch(&mut self, id: &str)
        ensures
            final(self).order() == touched(old(self).order(), id@),
    {
        self.forget(id);
        self.access_order.push_front(id.to_owned());
        assert(self.order() =~= touched(old(self).order(), id@));
    }

    /// Takes the first occurrence of `id` out of the recency order.
    fn forget(&mut self, id: &str)
        ensures
            final(self).order() == old(self).order().remove_value(id@),
    {
        let mut i: usize = 0;
        while i < self.access_order.len()
            invariant
                i <= self.access_order@.len(),
                self.access_order@ == old(self).access_order@,
                forall|j: int| 0 <= j < i ==> self.order()[j] != id@,
            decreases self.access_order@.len() - i,
        {
            if str_equal(self.access_order[i].as_str(), id) {
                proof {
                    lemma_index_of_first(self.order(), id@, i as int);
                }
                let _ = self.access_order.remove(i);
                assert(self.order() =~= old(self).order().remove(i as int));
                return ;
            }
            i = i + 1;
        }
        proof {
            lemma_index_of_first_none(self.order(), id@);
        }
    }
}

impl Default for LruEvictionPolicy {
    fn default() -> (p: Self)
        ensures
            p.order() == Seq::<Seq<char>>::empty(),
    {
        LruEvictionPolicy::new()
    }
}

impl EvictionPolicy for LruEvictionPolicy {
    /// When `current_count` exceeds `capacity`, the `current_count - capacity`
    /// least recently used ids (as many as the policy knows), least recently
    /// used first; otherwise none.
    fn select_evictions(&self, current_count: usize, capacity: usize) -> (r: Vec<String>)
        ensures
            views(r@) == if current_count <= capacity {
                Seq::<Seq<char>>::empty()
            } else {
                lru_victims(self.order(), current_count - capacity)
            },
    {
        let mut r: Vec<String> = Vec::new();
        if current_count <= capacity {
            assert(views(r@) =~= Seq::<Seq<char>>::empty());
            return r;
        }
        let to_evict = current_count - capacity;
        let len = self.access_order.len();
        let ghost n = lru_victims(self.order(), to_evict as int).len();
        let mut i: usize = 0;
        while i < to_evict && i < len
            invariant
                len == self.access_order@.len(),
                i <= to_evict,
                i <= len,
                n == if to_evict < len {
                    to_evict as int
                } else {
                    len as int
                },
                views(r@) == lru_victims(self.order(), to_evict as int).subrange(0, i as int),
            decreases len - i,
        {
            let ghost pre = r@;
            r.push(self.access_order[len - 1 - i].clone());
            assert(views(r@) =~= views(pre).push(self.order()[len - 1 - i]));
            assert(views(r@) =~= lru_victims(self.order(), to_evict as int).subrange(
                0,
                i + 1 as int,
            ));
            i = i + 1;
        }
        assert(lru_victims(self.order(), to_evict as int).subrange(0, i as int) =~= lru_victims(
            self.order(),
            to_evict as int,
        ));
        r
    }

    /// `id` becomes the most recently used.
    fn on_access(&mut self, id: &str)
        ensures
            final(self).order() == touched(old(self).order(), id@),
    {
        self.touch(id);
    }

    /// `id` becomes the most recently used.
    fn on_write(&mut self, id: &str)
        ensures
            final(self).order() == touched(old(self).order(), id@),
    {
        self.touch(id);
    }

    /// `id` leaves the recency order.
    fn on_delete(&mut self, id: &str)
        ensures
            final(self).order() == old(self).order().remove_value(id@),
    {
        self.forget(id);
    }
}

/// Using an id keeps every id once in the recency order.
pub proof fn lemma_touched_no_duplicates(order: Seq<Seq<char>>, id: Seq<char>)
    requires
        order.no_duplicates(),
    ensures
        touched(order, id).no_duplicates(),
        touched(order, id)[0] == id,
        touched(order, id).to_set() == order.to_set().insert(id),
{
    lemma_remove_value_no_dup(order, id);
    lemma_no_dup_cons(id, order.remove_value(id));
    let t = touched(order, id);
    order.index_of_first_ensures(id);
    assert forall|x: Seq<char>| t.to_set().contains(x) <==> order.to_set().insert(id).contains(x) by {
        if x != id && order.contains(x) {
            match order.index_of_first(id) {
                Some(i) => {
                    let a = choose|a: int| 0 <= a < order.len() && order[a] == x;
                    assert(a != i);
                    let b = if a < i {
                        a
                    } else {
                        a - 1
                    };
                    assert(order.remove(i)[b] == x);
                    assert(t[b + 1] == x);
                },
                None => {
                    let a = choose|a: int| 0 <= a < order.len() && order[a] == x;
                    assert(t[a + 1] == x);
                },
            }
        }
        if t.contains(x) && x != id {
            let a = choose|a: int| 0 <= a < t.len() && t[a] == x;
            assert(order.remove_value(id)[a - 1] == x);
        }
        assert(t[0] == id);
    }
    assert(t.to_set() =~= order.to_set().insert(id));
}

} // verus!
