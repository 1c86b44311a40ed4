//! Age-ordered eviction over whole chunks.
//!
//! This policy chooses its victims from the chunks themselves: when there
//! are more chunks than the capacity allows, the oldest chunks (by creation
//! time, ties broken by their position) leave, oldest first. It also keeps a
//! recency order of ids as it is told of writes, accesses and deletes.

use crate::eviction::touched;
use crate::pb::MemoryChunk;
use crate::text::{lemma_index_of_first, lemma_index_of_first_none, str_equal, views};
use std::collections::VecDeque;
use vstd::prelude::*;

verus! {

/// A pluggable eviction policy that sees the chunks it chooses from.
pub trait EvictionPolicy {
    /// Ids of entries to evict when there are more than `capacity`.
    fn select_evictions(&self, entries: &[MemoryChunk], capacity: usize) -> Vec<String>;

    fn on_access(&mut self, id: &str);

    fn on_write(&mut self, id: &str);

    fn on_delete(&mut self, id: &str);
}

/// Entry `i` is older than entry `j`: created earlier, or at the same time
/// and placed before it.
pub open spec fn older(times: Seq<u64>, i: int, j: int) -> bool {
    times[i] < times[j] || (times[i] == times[j] && i < j)
}

/// `sel` lists the `k` oldest entries, oldest first.
pub open spec fn is_oldest_selection(times: Seq<u64>, k: int, sel: Seq<int>) -> bool {
    &&& sel.len() == k
    &&& forall|a: int| 0 <= a < sel.len() ==> 0 <= #[trigger] sel[a] < times.len()
    &&& forall|a: int, b: int|
        0 <= a < b < sel.len() ==> older(times, #[trigger] sel[a], #[trigger] sel[b])
    &&& forall|j: int, a: int|
        #![trigger sel.contains(j), sel[a]]
        0 <= j < times.len() && !sel.contains(j) && 0 <= a < sel.len() ==> older(times, sel[a], j)
}

/// The creation times of the chunks.
pub open spec fn creation_times(entries: Seq<MemoryChunk>) -> Seq<u64> {
    entries.map_values(|c: MemoryChunk| c.created_at_ms)
}

/// The ids of the chunks.
pub open spec fn chunk_ids(entries: Seq<MemoryChunk>) -> Seq<Seq<char>> {
    entries.map_values(|c: MemoryChunk| c.id@)
}

/// `j` occurs among the positions `s`.
pub open spec fn lists(s: Seq<usize>, j: int) -> bool {
    exists|a: int| 0 <= a < s.len() && s[a] == j
}

/// Least-recently-used bookkeeping with age-ordered victims.
pub struct LruEvictionPolicy {
    access_order: VecDeque<String>,
}

/// The positions `0..n` of `times`, oldest first (a stable sort by time).
fn oldest_first(times: &Vec<u64>) -> (sorted: Vec<usize>)
    ensures
        sorted@.len() == times@.len(),
        forall|a: int| 0 <= a < sorted@.len() ==> 0 <= #[trigger] sorted@[a] < times@.len(),
        forall|a: int, b: int|
            0 <= a < b < sorted@.len() ==> older(
                times@,
                #[trigger] sorted@[a] as int,
                #[trigger] sorted@[b] as int,
            ),
        forall|j: int|
            0 <= j < times@.len() ==> #[trigger] lists(sorted@, j),
{
    let mut sorted: Vec<usize> = Vec::new();
    let n = times.len();
    let mut i: usize = 0;
    while i < n
        invariant
            n == times@.len(),
            i <= n,
            sorted@.len() == i,
            forall|a: int| 0 <= a < sorted@.len() ==> 0 <= #[trigger] sorted@[a] < i,
            forall|a: int, b: int|
                0 <= a < b < sorted@.len() ==> older(
                    times@,
                    #[trigger] sorted@[a] as int,
                    #[trigger] sorted@[b] as int,
                ),
            forall|j: int|
                0 <= j < i ==> #[trigger] lists(sorted@, j),
        decreases n - i,
    {
        let ti = times[i];
        let mut p: usize = 0;
        while p < sorted.len() && times[sorted[p]] <= ti
            invariant
                n == times@.len(),
                i < n,
                ti == times@[i as int],
                p <= sorted@.len(),
                forall|a: int| 0 <= a < sorted@.len() ==> 0 <= #[trigger] sorted@[a] < i,
                forall|a: int| 0 <= a < p ==> times@[#[trigger] sorted@[a] as int] <= ti,
            decreases sorted@.len() - p,
        {
            p = p + 1;
        }
        let ghost pre = sorted@;
        assert forall|a: int| 0 <= a < p implies older(times@, #[trigger] pre[a] as int, i as int) by {
            assert(times@[pre[a] as int] <= ti);
        }
        assert forall|a: int| p <= a < pre.len() implies older(times@, i as int, #[trigger] pre[a] as int) by {
            if a > p {
                assert(older(times@, pre[p as int] as int, pre[a] as int));
            }
        }
        sorted.insert(p, i);
        proof {
            pre.insert_ensures(p as int, i);
        }
        assert forall|a: int, b: int|
            0 <= a < b < sorted@.len() implies older(
                times@,
                #[trigger] sorted@[a] as int,
                #[trigger] sorted@[b] as int,
            ) by {
            if a < p && b < p {
                assert(older(times@, pre[a] as int, pre[b] as int));
            } else if a < p && b == p {
            } else if a < p && b > p {
                assert(sorted@[b] == pre[b - 1]);
                assert(older(times@, pre[a] as int, pre[b - 1] as int));
            } else if a == p {
                assert(sorted@[b] == pre[b - 1]);
            } else {
                assert(sorted@[a] == pre[a - 1]);
                assert(sorted@[b] == pre[b - 1]);
                assert(older(times@, pre[a - 1] as int, pre[b - 1] as int));
            }
        }
        assert forall|j: int| 0 <= j < i + 1 implies #[trigger] lists(sorted@, j) by {
            if j == i {
                assert(sorted@[p as int] == j);
            } else {
                assert(lists(pre, j));
                let a = choose|a: int| 0 <= a < pre.len() && pre[a] == j;
                if a < p {
                    assert(sorted@[a] == j);
                } else {
                    assert(sorted@[a + 1] == j);
                }
            }
        }
        i = i + 1;
    }
    sorted
}

impl LruEvictionPolicy {
    /// The ids, most recently used first.
    pub closed spec fn order(&self) -> Seq<Seq<char>> {
        views(self.access_order@)
    }

    /// A policy that has seen nothing.
    pub fn new() -> (p: Self)
        ensures
            p.order() == Seq::<Seq<char>>::empty(),
    {
        let p = LruEvictionPolicy { access_order: VecDeque::new() };
        assert(p.order() =~= Seq::<Seq<char>>::empty());
        p
    }

    /// Takes the first occurrence of `id` out of the recency order.
    fn forget(&mut self, id: &str)
        ensures
            final(self).order() == old(self).order().remove_value(id@),
    {
        let mut i: usize = 0;
        while i < self.access_order.len()
            invariant
                i <= self.access_order@.len(),
                self.access_order@ == old(self).access_order@,
                forall|j: int| 0 <= j < i ==> self.order()[j] != id@,
            decreases self.access_order@.len() - i,
        {
            if str_equal(self.access_order[i].as_str(), id) {
                proof {
                    lemma_index_of_first(self.order(), id@, i as int);
                }
                let _ = self.access_order.remove(i);
                assert(self.order() =~= old(self).order().remove(i as int));
                return ;
            }
            i = i + 1;
        }
        proof {
            lemma_index_of_first_none(self.order(), id@);
        }
    }
}

impl Default for LruEvictionPolicy {
    fn default() -> (p: Self)
        ensures
            p.order() == Seq::<Seq<char>>::empty(),
    {
        LruEvictionPolicy::new()
    }
}

impl EvictionPolicy for LruEvictionPolicy {
    /// When there are more entries than `capacity`, the ids of the
    /// `entries.len() - capacity` oldest entries, oldest first; otherwise none.
    fn select_evictions(&self, entries: &[MemoryChunk], capacity: usize) -> (r: Vec<String>)
        ensures
            entries@.len() <= capacity ==> r@.len() == 0,
            entries@.len() > capacity ==> exists|sel: Seq<int>|
                {
                    &&& #[trigger] is_oldest_selection(
                        creation_times(entries@),
                        entries@.len() - capacity,
                        sel,
                    )
                    &&& views(r@) == sel.map_values(|i: int| chunk_ids(entries@)[i])
                },
    {
        let mut r: Vec<String> = Vec::new();
        if entries.len() <= capacity {
            return r;
        }
        let n = entries.len();
        let mut times: Vec<u64> = Vec::new();
        let mut i: usize = 0;
        while i < n
            invariant
                n == entries@.len(),
                i <= n,
                times@ == creation_times(entries@).subrange(0, i as int),
            decreases n - i,
        {
            times.push(entries[i].created_at_ms);
            assert(times@ =~= creation_times(entries@).subrange(0, i + 1 as int));
            i = i + 1;
        }
        assert(times@ =~= creation_times(entries@));
        let sorted = oldest_first(&times);
        let k = n - capacity;
        let ghost sel = sorted@.subrange(0, k as int).map_values(|x: usize| x as int);
        let mut q: usize = 0;
        while q < k
            invariant
                n == entries@.len(),
                k <= n,
                sorted@.len() == n,
                forall|a: int| 0 <= a < sorted@.len() ==> 0 <= #[trigger] sorted@[a] < n,
                sel == sorted@.subrange(0, k as int).map_values(|x: usize| x as int),
                q <= k,
                views(r@) == sel.subrange(0, q as int).map_values(|i: int| chunk_ids(entries@)[i]),
            decreases k - q,
        {
            let ghost pre = r@;
            let idx = sorted[q];
            r.push(entries[idx].id.clone());
            assert(sel[q as int] == idx as int);
            assert(views(r@) =~= views(pre).push(chunk_ids(entries@)[idx as int]));
            assert(views(r@) =~= sel.subrange(0, q + 1 as int).map_values(
                |i: int| chunk_ids(entries@)[i],
            ));
            q = q + 1;
        }
        assert(sel.subrange(0, k as int) =~= sel);
        assert(is_oldest_selection(creation_times(entries@), k as int, sel)) by {
            assert forall|a: int, b: int| 0 <= a < b < sel.len() implies older(
                creation_times(entries@),
                #[trigger] sel[a],
                #[trigger] sel[b],
            ) by {
                assert(older(times@, sorted@[a] as int, sorted@[b] as int));
            }
            assert forall|j: int, a: int|
                #![trigger sel.contains(j), sel[a]]
                0 <= j < n && !sel.contains(j) && 0 <= a < sel.len() implies older(
                creation_times(entries@),
                sel[a],
                j,
            ) by {
                assert(lists(sorted@, j));
                let b = choose|b: int| 0 <= b < sorted@.len() && sorted@[b] == j;
                if b < k {
                    assert(sel[b] == j);
                }
                assert(older(times@, sorted@[a] as int, sorted@[b] as int));
            }
        }
        r
    }

    /// `id` becomes the most recently used.
    fn on_access(&mut self, id: &str)
        ensures
            final(self).order() == touched(old(self).order(), id@),
    {
        self.forget(id);
        self.access_order.push_front(id.to_owned());
        assert(self.order() =~= touched(old(self).order(), id@));
    }

    /// `id` is put in front of the recency order (an earlier occurrence
    /// stays where it is).
    fn on_write(&mut self, id: &str)
        ensures
            final(self).order() == seq![id@] + old(self).order(),
    {
        self.access_order.push_front(id.to_owned());
        assert(self.order() =~= seq![id@] + old(self).order());
    }

    /// The first occurrence of `id` leaves the recency order.
    fn on_delete(&mut self, id: &str)
        ensures
            final(self).order() == old(self).order().remove_value(id@),
    {
        self.forget(id);
    }
}

} // verus!
