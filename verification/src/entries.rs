//! The namespaced entry registry: entries kept under generated ids, each in
//! a namespace under a key, listed by namespace.
//!
//! An entry's embedding is held as the bit patterns of its floats, one word
//! per float; the registry never looks inside it. A read returns a copy of
//! the entry stamped with the time of the read and one more access; the
//! stored entry is left as it was.

use crate::error::KeelError;
use crate::registry::{draw_uuid, drawn_uuid, is_v4_uuid_text};
use crate::signal::{read_wall_clock_secs, wall_clock_secs};
use crate::text::{lemma_index_of_first, lemma_index_of_first_none, lemma_no_dup_remove, str_equal};
use vstd::prelude::*;

verus! {

/// One entry of the registry.
#[derive(Debug)]
pub struct MemoryEntry {
    pub id: String,
    pub namespace: String,
    pub key: String,
    pub value: Vec<u8>,
    /// The embedding, one float's bit pattern per word.
    pub vector: Option<Vec<u32>>,
    pub created_at: u64,
    pub accessed_at: u64,
    pub access_count: u64,
}

/// The value of a [`MemoryEntry`].
pub struct MemoryEntryView {
    pub id: Seq<char>,
    pub namespace: Seq<char>,
    pub key: Seq<char>,
    pub value: Seq<u8>,
    pub vector: Option<Seq<u32>>,
    pub created_at: u64,
    pub accessed_at: u64,
    pub access_count: u64,
}

/// The value of an embedding.
pub open spec fn vector_view(v: Option<Vec<u32>>) -> Option<Seq<u32>> {
    match v {
        Some(w) => Some(w@),
        None => None,
    }
}

impl View for MemoryEntry {
    type V = MemoryEntryView;

    open spec fn view(&self) -> MemoryEntryView {
        MemoryEntryView {
            id: self.id@,
            namespace: self.namespace@,
            key: self.key@,
            value: self.value@,
            vector: vector_view(self.vector),
            created_at: self.created_at,
            accessed_at: self.accessed_at,
            access_count: self.access_count,
        }
    }
}

fn copy_bytes(v: &Vec<u8>) -> (r: Vec<u8>)
    ensures
        r@ == v@,
{
    let r = v.clone();
    assert(r@ =~= v@);
    r
}

fn copy_words(v: &Vec<u32>) -> (r: Vec<u32>)
    ensures
        r@ == v@,
{
    let r = v.clone();
    assert(r@ =~= v@);
    r
}

impl MemoryEntry {
    /// A copy of this entry.
    pub fn copy(&self) -> (r: MemoryEntry)
        ensures
            r@ == self@,
    {
        let vector = match &self.vector {
            Some(w) => Some(copy_words(w)),
            None => None,
        };
        MemoryEntry {
            id: self.id.clone(),
            namespace: self.namespace.clone(),
            key: self.key.clone(),
            value: copy_bytes(&self.value),
            vector,
            created_at: self.created_at,
            accessed_at: self.accessed_at,
            access_count: self.access_count,
        }
    }
}

/// The ids of stored entries, in storage order.
pub open spec fn ids_of(s: Seq<MemoryEntryView>) -> Seq<Seq<char>> {
    s.map_values(|e: MemoryEntryView| e.id)
}

/// The entry under `id`, if any.
pub open spec fn entry_for(s: Seq<MemoryEntryView>, id: Seq<char>) -> Option<MemoryEntryView> {
    match ids_of(s).index_of_first(id) {
        Some(i) => Some(s[i]),
        None => None,
    }
}

/// The entries without the one under `id`.
pub open spec fn without_id(s: Seq<MemoryEntryView>, id: Seq<char>) -> Seq<MemoryEntryView> {
    match ids_of(s).index_of_first(id) {
        Some(i) => s.remove(i),
        None => s,
    }
}

/// The test that keeps the entries of `namespace`.
pub open spec fn in_namespace(namespace: Seq<char>) -> spec_fn(MemoryEntryView) -> bool {
    |e: MemoryEntryView| e.namespace == namespace
}

/// The entry that a write at time `now` stores.
pub open spec fn fresh_entry(
    id: Seq<char>,
    namespace: Seq<char>,
    key: Seq<char>,
    value: Seq<u8>,
    vector: Option<Seq<u32>>,
    now: u64,
) -> MemoryEntryView {
    MemoryEntryView {
        id,
        namespace,
        key,
        value,
        vector,
        created_at: now,
        accessed_at: now,
        access_count: 0,
    }
}

/// What a read at time `now` returns of the stored entry `e`.
pub open spec fn as_read(e: MemoryEntryView, now: u64) -> MemoryEntryView {
    MemoryEntryView {
        id: e.id,
        namespace: e.namespace,
        key: e.key,
        value: e.value,
        vector: e.vector,
        created_at: e.created_at,
        accessed_at: now,
        access_count: (e.access_count + 1) as u64,
    }
}

/// Removing an entry by id leaves no entry under that id, keeps the other
/// ids distinct, and brings in no new id.
pub proof fn lemma_without_id(s: Seq<MemoryEntryView>, id: Seq<char>)
    requires
        ids_of(s).no_duplicates(),
    ensures
        ids_of(without_id(s, id)).no_duplicates(),
        !ids_of(without_id(s, id)).contains(id),
        forall|x: Seq<char>| ids_of(without_id(s, id)).contains(x) ==> ids_of(s).contains(x),
        forall|e: MemoryEntryView| without_id(s, id).contains(e) ==> s.contains(e),
{
    ids_of(s).index_of_first_ensures(id);
    match ids_of(s).index_of_first(id) {
        Some(i) => {
            assert(ids_of(s.remove(i)) =~= ids_of(s).remove(i));
            lemma_no_dup_remove(ids_of(s), i);
            assert forall|e: MemoryEntryView| s.remove(i).contains(e) implies s.contains(e) by {
                let a = choose|a: int| 0 <= a < s.remove(i).len() && s.remove(i)[a] == e;
                if a < i {
                    assert(s[a] == e);
                } else {
                    assert(s[a + 1] == e);
                }
            }
        },
        None => {},
    }
}

/// In entries with distinct ids, removing one id leaves the entries under
/// the other ids as they were.
pub proof fn lemma_entry_without(s: Seq<MemoryEntryView>, id: Seq<char>, x: Seq<char>)
    requires
        ids_of(s).no_duplicates(),
        x != id,
    ensures
        entry_for(without_id(s, id), x) == entry_for(s, x),
{
    ids_of(s).index_of_first_ensures(id);
    ids_of(s).index_of_first_ensures(x);
    match ids_of(s).index_of_first(id) {
        Some(i) => {
            let r = s.remove(i);
            assert(ids_of(r) =~= ids_of(s).remove(i));
            ids_of(r).index_of_first_ensures(x);
            match ids_of(s).index_of_first(x) {
                Some(j) => {
                    let jj = if j < i {
                        j
                    } else {
                        j - 1
                    };
                    assert(j != i);
                    assert(ids_of(r)[jj] == x);
                    assert forall|a: int| 0 <= a < jj implies ids_of(r)[a] != x by {
                        if a < i {
                            assert(ids_of(r)[a] == ids_of(s)[a]);
                        } else {
                            assert(ids_of(r)[a] == ids_of(s)[a + 1]);
                        }
                    }
                    lemma_index_of_first(ids_of(r), x, jj);
                    assert(r[jj] == s[j]);
                },
                None => {
                    if ids_of(r).contains(x) {
                        let a = choose|a: int| 0 <= a < ids_of(r).len() && ids_of(r)[a] == x;
                        if a < i {
                            assert(ids_of(s)[a] == x);
                        } else {
                            assert(ids_of(s)[a + 1] == x);
                        }
                    }
                },
            }
        },
        None => {},
    }
}

/// Appending an entry under an id that does not occur leaves the entries
/// under the other ids as they were and puts the new one under its id.
pub proof fn lemma_entry_push(s: Seq<MemoryEntryView>, e: MemoryEntryView, x: Seq<char>)
    requires
        !ids_of(s).contains(e.id),
    ensures
        entry_for(s.push(e), e.id) == Some(e),
        x != e.id ==> entry_for(s.push(e), x) == entry_for(s, x),
{
    let t = s.push(e);
    assert(ids_of(t) =~= ids_of(s).push(e.id));
    assert forall|a: int| 0 <= a < s.len() implies ids_of(t)[a] != e.id by {
        assert(ids_of(t)[a] == ids_of(s)[a]);
    }
    lemma_index_of_first(ids_of(t), e.id, s.len() as int);
    if x != e.id {
        ids_of(s).index_of_first_ensures(x);
        ids_of(t).index_of_first_ensures(x);
        match ids_of(s).index_of_first(x) {
            Some(j) => {
                assert(ids_of(t)[j] == x);
                assert forall|a: int| 0 <= a < j implies ids_of(t)[a] != x by {
                    assert(ids_of(t)[a] == ids_of(s)[a]);
                }
                lemma_index_of_first(ids_of(t), x, j);
            },
            None => {
                if ids_of(t).contains(x) {
                    let a = choose|a: int| 0 <= a < ids_of(t).len() && ids_of(t)[a] == x;
                    assert(ids_of(s)[a] == x);
                }
            },
        }
    }
}

/// The entry registry.
pub struct MemoryRegistry {
    entries: Vec<MemoryEntry>,
}

impl MemoryRegistry {
    /// The stored entries, in storage order.
    pub closed spec fn entries(&self) -> Seq<MemoryEntryView> {
        self.entries@.map_values(|e: MemoryEntry| e@)
    }

    /// Each id occurs once, and stored entries count no access (a read
    /// counts on the copy it returns).
    pub open spec fn wf(&self) -> bool {
        &&& ids_of(self.entries()).no_duplicates()
        &&& forall|i: int| 0 <= i < self.entries().len() ==> #[trigger] self.entries()[i].access_count == 0
    }

    /// An empty registry.
    pub fn new() -> (r: Self)
        ensures
            r.wf(),
            r.entries() == Seq::<MemoryEntryView>::empty(),
    {
        let r = MemoryRegistry { entries: Vec::new() };
        assert(r.entries() =~= Seq::<MemoryEntryView>::empty());
        r
    }

    /// The position of the entry under `id`, if there is one.
    fn position_of(&self, id: &str) -> (r: Option<usize>)
        ensures
            match r {
                Some(i) => {
                    &&& ids_of(self.entries()).index_of_first(id@) == Some(i as int)
                    &&& i < self.entries().len()
                },
                None => ids_of(self.entries()).index_of_first(id@) is None,
            },
    {
        let mut i: usize = 0;
        while i < self.entries.len()
            invariant
                i <= self.entries@.len(),
                forall|j: int| 0 <= j < i ==> ids_of(self.entries())[j] != id@,
            decreases self.entries@.len() - i,
        {
            if str_equal(self.entries[i].id.as_str(), id) {
                proof {
                    lemma_index_of_first(ids_of(self.entries()), id@, i as int);
                }
                return Some(i);
            }
            i = i + 1;
        }
        proof {
            lemma_index_of_first_none(ids_of(self.entries()), id@);
        }
        None
    }

    /// Removes the entry under `id`; whether there was one.
    fn remove_id(&mut self, id: &str) -> (found: bool)
        requires
            old(self).wf(),
        ensures
            final(self).wf(),
            final(self).entries() == without_id(old(self).entries(), id@),
            found == (entry_for(old(self).entries(), id@) is Some),
    {
        proof {
            lemma_without_id(old(self).entries(), id@);
        }
        match self.position_of(id) {
            Some(i) => {
                let _ = self.entries.remove(i);
                assert(self.entries() =~= old(self).entries().remove(i as int));
                assert forall|j: int| 0 <= j < self.entries().len() implies #[trigger] self.entries()[j].access_count == 0 by {
                    if j < i {
                        assert(self.entries()[j] == old(self).entries()[j]);
                    } else {
                        assert(self.entries()[j] == old(self).entries()[j + 1]);
                    }
                }
                true
            },
            None => false,
        }
    }

    /// Stores an entry under `id`, created at `now`, in place of any entry
    /// under the same id; returns the id.
    pub fn write_entry(
        &mut self,
        id: String,
        now: u64,
        namespace: String,
        key: String,
        value: Vec<u8>,
        vector: Option<Vec<u32>>,
    ) -> (r: String)
        requires
            old(self).wf(),
        ensures
            final(self).wf(),
            r@ == id@,
            final(self).entries() == without_id(old(self).entries(), id@).push(
                fresh_entry(id@, namespace@, key@, value@, vector_view(vector), now),
            ),
    {
        let _ = self.remove_id(id.as_str());
        let ghost pre = self.entries();
        let entry = MemoryEntry {
            id: id.clone(),
            namespace,
            key,
            value,
            vector,
            created_at: now,
            accessed_at: now,
            access_count: 0,
        };
        let ghost e = entry@;
        self.entries.push(entry);
        proof {
            assert(self.entries() =~= pre.push(e));
            lemma_without_id(old(self).entries(), id@);
            assert(ids_of(self.entries()) =~= ids_of(pre).push(id@));
            assert forall|a: int, b: int|
                0 <= a < ids_of(self.entries()).len() && 0 <= b < ids_of(self.entries()).len()
                    && a != b implies ids_of(self.entries())[a] != ids_of(self.entries())[b] by {
                if a == pre.len() {
                    assert(ids_of(pre).contains(ids_of(pre)[b]));
                } else if b == pre.len() {
                    assert(ids_of(pre).contains(ids_of(pre)[a]));
                }
            }
            assert forall|j: int| 0 <= j < self.entries().len() implies #[trigger] self.entries()[j].access_count == 0 by {
                if j < pre.len() {
                    assert(self.entries()[j] == pre[j]);
                }
            }
        }
        id
    }

    /// Stores a new entry under a fresh random id, created now; returns the
    /// id (a hyphenated UUID).
    pub fn write(
        &mut self,
        namespace: String,
        key: String,
        value: Vec<u8>,
        vector: Option<Vec<u32>>,
    ) -> (r: Result<String, KeelError>)
        requires
            old(self).wf(),
        ensures
            final(self).wf(),
            r matches Ok(id) && is_v4_uuid_text(id@) && final(self).entries() == without_id(
                old(self).entries(),
                id@,
            ).push(
                fresh_entry(
                    id@,
                    namespace@,
                    key@,
                    value@,
                    vector_view(vector),
                    final(self).entries().last().created_at,
                ),
            ),
            r matches Ok(id) && drawn_uuid(id@),
            wall_clock_secs(final(self).entries().last().created_at),
    {
        let id = draw_uuid();
        let now = read_wall_clock_secs();
        Ok(self.write_entry(id, now, namespace, key, value, vector))
    }

    /// A copy of the entry under `id` as read at time `now`, or `None` when
    /// there is none.
    pub fn read_at(&self, id: &str, now: u64) -> (r: Result<Option<MemoryEntry>, KeelError>)
        requires
            self.wf(),
        ensures
            match entry_for(self.entries(), id@) {
                None => r matches Ok(None),
                Some(e) => r matches Ok(Some(x)) && x@ == as_read(e, now),
            },
    {
        match self.position_of(id) {
            Some(i) => {
                let mut e = self.entries[i].copy();
                assert(self.entries()[i as int].access_count == 0);
                e.accessed_at = now;
                e.access_count = e.access_count + 1;
                Ok(Some(e))
            },
            None => Ok(None),
        }
    }

    /// A copy of the entry under `id` as read now, or `None` when there is
    /// none.
    pub fn read(&self, id: &str) -> (r: Result<Option<MemoryEntry>, KeelError>)
        requires
            self.wf(),
        ensures
            match entry_for(self.entries(), id@) {
                None => r matches Ok(None),
                Some(e) => r matches Ok(Some(x)) && x@ == as_read(e, x.accessed_at) && wall_clock_secs(
                    x.accessed_at,
                ),
            },
    {
        let now = read_wall_clock_secs();
        self.read_at(id, now)
    }

    /// Copies of the entries of `namespace`, in storage order.
    pub fn list(&self, namespace: &str) -> (r: Result<Vec<MemoryEntry>, KeelError>)
        ensures
            r matches Ok(v) && v@.map_values(|e: MemoryEntry| e@) == self.entries().filter(
                in_namespace(namespace@),
            ),
    {
        broadcast use vstd::seq_lib::group_seq_properties;

        let ghost s = self.entries();
        let mut v: Vec<MemoryEntry> = Vec::new();
        let mut i: usize = 0;
        assert(s.subrange(0, 0).filter(in_namespace(namespace@)) =~= Seq::<
            MemoryEntryView,
        >::empty());
        while i < self.entries.len()
            invariant
                s == self.entries(),
                i <= self.entries@.len(),
                v@.map_values(|e: MemoryEntry| e@) == s.subrange(0, i as int).filter(
                    in_namespace(namespace@),
                ),
            decreases self.entries@.len() - i,
        {
            let ghost pre = v@.map_values(|e: MemoryEntry| e@);
            let ghost item = s[i as int];
            assert(s.subrange(0, i + 1 as int) =~= s.subrange(0, i as int).push(item));
            proof {
                Seq::lemma_filter_push(s.subrange(0, i as int), item, in_namespace(namespace@));
            }
            if str_equal(self.entries[i].namespace.as_str(), namespace) {
                let c = self.entries[i].copy();
                v.push(c);
                assert(v@.map_values(|e: MemoryEntry| e@) =~= pre.push(item));
            }
            i = i + 1;
        }
        assert(s.subrange(0, i as int) =~= s);
        Ok(v)
    }

    /// Removes the entry under `id`; whether there was one.
    pub fn delete(&mut self, id: &str) -> (r: Result<bool, KeelError>)
        requires
            old(self).wf(),
        ensures
            final(self).wf(),
            final(self).entries() == without_id(old(self).entries(), id@),
            r matches Ok(found) && found == (entry_for(old(self).entries(), id@) is Some),
    {
        Ok(self.remove_id(id))
    }

    /// The number of entries.
    pub fn count(&self) -> (r: Result<usize, KeelError>)
        ensures
            r matches Ok(n) && n == self.entries().len(),
    {
        Ok(self.entries.len())
    }
}

impl Default for MemoryRegistry {
    fn default() -> (r: Self)
        ensures
            r.wf(),
            r.entries() == Seq::<MemoryEntryView>::empty(),
    {
        MemoryRegistry::new()
    }
}

} // verus!
