//! A small map from strings to integers, kept as a list of distinct keys.

use crate::text::{lemma_no_dup_remove, str_equal};
use vstd::prelude::*;

verus! {

/// The map recorded by a list of (key, value) pairs; a later pair for the
/// same key wins.
pub open spec fn table_map(t: Seq<(Seq<char>, u64)>) -> Map<Seq<char>, u64>
    decreases t.len(),
{
    if t.len() == 0 {
        Map::empty()
    } else {
        table_map(t.drop_last()).insert(t.last().0, t.last().1)
    }
}

/// The keys of a list of pairs.
pub open spec fn keys_of_pairs(t: Seq<(Seq<char>, u64)>) -> Seq<Seq<char>> {
    t.map_values(|p: (Seq<char>, u64)| p.0)
}

/// The keys in the map are those of the list.
pub proof fn lemma_table_dom(t: Seq<(Seq<char>, u64)>)
    ensures
        table_map(t).dom() == keys_of_pairs(t).to_set(),
    decreases t.len(),
{
    if t.len() > 0 {
        lemma_table_dom(t.drop_last());
        assert(keys_of_pairs(t) =~= keys_of_pairs(t.drop_last()).push(t.last().0));
        keys_of_pairs(t.drop_last()).lemma_push_to_set_commute(t.last().0);
        assert(table_map(t).dom() =~= keys_of_pairs(t).to_set());
    } else {
        assert(table_map(t).dom() =~= keys_of_pairs(t).to_set());
    }
}

/// Removing a pair of a list with distinct keys removes its key from the map.
pub proof fn lemma_table_remove(t: Seq<(Seq<char>, u64)>, i: int)
    requires
        0 <= i < t.len(),
        keys_of_pairs(t).no_duplicates(),
    ensures
        table_map(t.remove(i)) == table_map(t).remove(t[i].0),
        keys_of_pairs(t.remove(i)).no_duplicates(),
    decreases t.len(),
{
    let d = t.drop_last();
    assert(keys_of_pairs(d) =~= keys_of_pairs(t).drop_last());
    assert(keys_of_pairs(d).no_duplicates());
    lemma_table_dom(d);
    lemma_no_dup_remove(keys_of_pairs(t), i);
    assert(keys_of_pairs(t.remove(i)) =~= keys_of_pairs(t).remove(i));
    if i == t.len() - 1 {
        assert(t.remove(i) =~= d);
        assert(!keys_of_pairs(d).contains(t.last().0)) by {
            if keys_of_pairs(d).contains(t.last().0) {
                let a = choose|a: int|
                    0 <= a < keys_of_pairs(d).len() && keys_of_pairs(d)[a] == t.last().0;
                assert(keys_of_pairs(t)[a] == keys_of_pairs(t)[t.len() - 1]);
            }
        }
        assert(!table_map(d).dom().contains(t.last().0));
        assert(table_map(t).remove(t[i].0) =~= table_map(d));
    } else {
        lemma_table_remove(d, i);
        assert(t.remove(i) =~= d.remove(i).push(t.last()));
        assert(t.remove(i).drop_last() =~= d.remove(i));
        assert(t.last().0 != t[i].0) by {
            assert(keys_of_pairs(t)[t.len() - 1] != keys_of_pairs(t)[i]);
        }
        assert(table_map(t.remove(i)) =~= table_map(t).remove(t[i].0));
    }
}

/// The value recorded for the key at position `i` of a list with distinct
/// keys.
pub proof fn lemma_table_at(t: Seq<(Seq<char>, u64)>, i: int)
    requires
        0 <= i < t.len(),
        keys_of_pairs(t).no_duplicates(),
    ensures
        table_map(t).contains_key(t[i].0),
        table_map(t)[t[i].0] == t[i].1,
    decreases t.len(),
{
    let d = t.drop_last();
    assert(keys_of_pairs(d) =~= keys_of_pairs(t).drop_last());
    lemma_table_dom(t);
    assert(keys_of_pairs(t)[i] == t[i].0);
    if i < t.len() - 1 {
        assert(keys_of_pairs(d).no_duplicates());
        lemma_table_at(d, i);
        assert(t.last().0 != t[i].0) by {
            assert(keys_of_pairs(t)[t.len() - 1] != keys_of_pairs(t)[i]);
        }
    }
}

/// A map from strings to integers.
pub struct StrTable {
    pairs: Vec<(String, u64)>,
}

impl StrTable {
    closed spec fn pair_views(&self) -> Seq<(Seq<char>, u64)> {
        self.pairs@.map_values(|p: (String, u64)| (p.0@, p.1))
    }

    /// The map.
    pub closed spec fn view(&self) -> Map<Seq<char>, u64> {
        table_map(self.pair_views())
    }

    /// Each key occurs once.
    pub closed spec fn wf(&self) -> bool {
        keys_of_pairs(self.pair_views()).no_duplicates()
    }

    /// The empty map.
    pub fn new() -> (t: Self)
        ensures
            t.wf(),
            t.view() == Map::<Seq<char>, u64>::empty(),
    {
        let t = StrTable { pairs: Vec::new() };
        assert(t.pair_views() =~= Seq::<(Seq<char>, u64)>::empty());
        t
    }

    fn position_of(&self, key: &str) -> (r: Option<usize>)
        ensures
            match r {
                Some(i) => i < self.pairs@.len() && self.pairs@[i as int].0@ == key@,
                None => !self.view().contains_key(key@),
            },
    {
        let ghost t = self.pair_views();
        let mut i: usize = 0;
        while i < self.pairs.len()
            invariant
                i <= self.pairs@.len(),
                t == self.pair_views(),
                forall|j: int| 0 <= j < i ==> keys_of_pairs(t)[j] != key@,
            decreases self.pairs@.len() - i,
        {
            if str_equal(self.pairs[i].0.as_str(), key) {
                return Some(i);
            }
            i = i + 1;
        }
        proof {
            lemma_table_dom(t);
            if keys_of_pairs(t).to_set().contains(key@) {
                let a = choose|a: int| 0 <= a < keys_of_pairs(t).len() && keys_of_pairs(t)[a] == key@;
                assert(keys_of_pairs(t)[a] != key@);
            }
        }
        None
    }

    /// The value under `key`, if any.
    pub fn get(&self, key: &str) -> (r: Option<u64>)
        requires
            self.wf(),
        ensures
            r == (if self.view().contains_key(key@) {
                Some(self.view()[key@])
            } else {
                None::<u64>
            }),
    {
        match self.position_of(key) {
            Some(i) => {
                proof {
                    lemma_table_at(self.pair_views(), i as int);
                }
                Some(self.pairs[i].1)
            },
            None => None,
        }
    }

    /// Removes the entry under `key` and returns its value.
    pub fn remove(&mut self, key: &str) -> (r: Option<u64>)
        requires
            old(self).wf(),
        ensures
            final(self).wf(),
            final(self).view() == old(self).view().remove(key@),
            r == (if old(self).view().contains_key(key@) {
                Some(old(self).view()[key@])
            } else {
                None::<u64>
            }),
    {
        match self.position_of(key) {
            Some(i) => {
                let ghost pre = self.pair_views();
                proof {
                    lemma_table_remove(pre, i as int);
                    lemma_table_at(pre, i as int);
                }
                let (_, v) = self.pairs.remove(i);
                assert(self.pair_views() =~= pre.remove(i as int));
                Some(v)
            },
            None => {
                assert(old(self).view().remove(key@) =~= old(self).view());
                None
            },
        }
    }

    /// Sets the value under `key`.
    pub fn set(&mut self, key: &str, value: u64)
        requires
            old(self).wf(),
        ensures
            final(self).wf(),
            final(self).view() == old(self).view().insert(key@, value),
    {
        let _ = self.remove(key);
        let ghost pre = self.pair_views();
        proof {
            lemma_table_dom(pre);
        }
        self.pairs.push((key.to_owned(), value));
        let ghost post = self.pair_views();
        assert(post =~= pre.push((key@, value)));
        assert(post.drop_last() =~= pre);
        assert(keys_of_pairs(post) =~= keys_of_pairs(pre).push(key@));
        assert(keys_of_pairs(post).no_duplicates()) by {
            assert forall|a: int, b: int|
                0 <= a < keys_of_pairs(post).len() && 0 <= b < keys_of_pairs(post).len() && a
                    != b implies keys_of_pairs(post)[a] != keys_of_pairs(post)[b] by {
                if a == pre.len() {
                    assert(keys_of_pairs(pre).to_set().contains(keys_of_pairs(pre)[b]));
                } else if b == pre.len() {
                    assert(keys_of_pairs(pre).to_set().contains(keys_of_pairs(pre)[a]));
                }
            }
        }
        assert(self.view() =~= old(self).view().insert(key@, value));
    }
}

} // verus!
