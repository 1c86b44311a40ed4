//! The index of the KV-cache prefix store.
//!
//! Each (model id, prefix hash) pair names one slab file
//! `{data_dir}/{safe(model_id)}/{safe(prefix_hash)}.bin`. The index maps the
//! composite key `"{model_id}\0{prefix_hash}"` to the slab's metadata and
//! keeps the keys in recency order (front = most recently used). When a write
//! takes the index over its capacity, the least recently used entry leaves.
//! Reads check the time to live lazily.
//!
//! The slab bytes themselves live in files; this module decides which files
//! are written, read and removed, and keeps the index that records them.

use crate::pb::KvEntry;
use crate::signal::{now_ms, wall_clock_ms};
use crate::text::{
    lemma_index_of_first, lemma_index_of_first_none, lemma_no_dup_remove, push_char, str_equal,
};
use vstd::prelude::*;

verus! {

/// Errors of the KV-cache store.
#[derive(Debug)]
pub enum KvError {
    /// Filesystem or memory-map failure.
    Io(std::io::Error),
    /// The request or the index is malformed.
    Index(String),
}

/// What the index records of one slab.
#[derive(Debug)]
pub struct KvMeta {
    pub prefix_hash: String,
    pub model_id: String,
    pub seq_len: i32,
    pub file_path: String,
    pub file_size: u64,
    pub created_at_ms: u64,
    pub ttl_ms: u64,
}

/// The value of a [`KvMeta`].
pub struct KvMetaView {
    pub prefix_hash: Seq<char>,
    pub model_id: Seq<char>,
    pub seq_len: i32,
    pub file_path: Seq<char>,
    pub file_size: u64,
    pub created_at_ms: u64,
    pub ttl_ms: u64,
}

impl View for KvMeta {
    type V = KvMetaView;

    open spec fn view(&self) -> KvMetaView {
        KvMetaView {
            prefix_hash: self.prefix_hash@,
            model_id: self.model_id@,
            seq_len: self.seq_len,
            file_path: self.file_path@,
            file_size: self.file_size,
            created_at_ms: self.created_at_ms,
            ttl_ms: self.ttl_ms,
        }
    }
}

impl KvMeta {
    /// A copy of this record.
    pub fn copy(&self) -> (r: KvMeta)
        ensures
            r@ == self@,
    {
        KvMeta {
            prefix_hash: self.prefix_hash.clone(),
            model_id: self.model_id.clone(),
            seq_len: self.seq_len,
            file_path: self.file_path.clone(),
            file_size: self.file_size,
            created_at_ms: self.created_at_ms,
            ttl_ms: self.ttl_ms,
        }
    }
}

/// An index entry: its composite key and its record.
pub type KvSlotView = (Seq<char>, KvMetaView);

struct KvSlot {
    key: String,
    meta: KvMeta,
}

/// What a lookup found.
#[derive(Debug)]
pub enum KvLookup {
    /// No entry under the key.
    Miss,
    /// The entry had outlived its time to live; it has left the index and its
    /// file should be removed.
    Expired(KvMeta),
    /// The entry, now the most recently used.
    Hit(KvMeta),
}

/// The index of the KV-cache prefix store.
pub struct KvCacheStore {
    data_dir: String,
    slots: Vec<KvSlot>,
    max_entries: usize,
}

// ---------- the model ----------

/// The composite key of a slab: model id, a NUL character, prefix hash.
pub open spec fn make_key_spec(model_id: Seq<char>, prefix_hash: Seq<char>) -> Seq<char> {
    model_id + seq!['\0'] + prefix_hash
}

/// Characters that are replaced in file names.
pub open spec fn is_unsafe_char(c: char) -> bool {
    c == '/' || c == '\\' || c == ':' || c == '*' || c == '?' || c == '"' || c == '<' || c
        == '>' || c == '|' || c == '\0'
}

/// `s` with every filesystem-unsafe character replaced by `_`.
pub open spec fn safe_name_spec(s: Seq<char>) -> Seq<char> {
    s.map_values(|c: char| if is_unsafe_char(c) { '_' } else { c })
}

/// `dir` followed by the relative component `name`, with a `/` between
/// them unless `dir` is empty or already ends with one.
pub open spec fn join_path(dir: Seq<char>, name: Seq<char>) -> Seq<char> {
    if dir.len() == 0 || dir.last() == '/' {
        dir + name
    } else {
        dir + seq!['/'] + name
    }
}

/// The directory that holds a model's slabs.
pub open spec fn model_dir_spec(dir: Seq<char>, model_id: Seq<char>) -> Seq<char> {
    join_path(dir, safe_name_spec(model_id))
}

/// The file that holds a slab.
pub open spec fn slab_path_spec(dir: Seq<char>, model_id: Seq<char>, prefix_hash: Seq<char>) -> Seq<
    char,
> {
    join_path(model_dir_spec(dir, model_id), safe_name_spec(prefix_hash) + seq!['.', 'b', 'i', 'n'])
}

/// The keys of an index, in recency order.
pub open spec fn keys_of(s: Seq<KvSlotView>) -> Seq<Seq<char>> {
    s.map_values(|p: KvSlotView| p.0)
}

/// The index without the entry under `k`.
pub open spec fn without_key(s: Seq<KvSlotView>, k: Seq<char>) -> Seq<KvSlotView> {
    match keys_of(s).index_of_first(k) {
        Some(i) => s.remove(i),
        None => s,
    }
}

/// The record under `k`, if any.
pub open spec fn meta_for(s: Seq<KvSlotView>, k: Seq<char>) -> Option<KvMetaView> {
    match keys_of(s).index_of_first(k) {
        Some(i) => Some(s[i].1),
        None => None,
    }
}

/// An entry with a time to live has expired once its creation time plus
/// its time to live lies before `now`.
pub open spec fn is_expired(m: KvMetaView, now: u64) -> bool {
    m.ttl_ms > 0 && m.created_at_ms + m.ttl_ms < now
}

/// Whether an entry falls under an eviction of `model_id` (an empty model
/// id selects every entry).
pub open spec fn belongs_to_model(m: KvMetaView, model_id: Seq<char>) -> bool {
    model_id.len() == 0 || m.model_id == model_id
}

/// The test that keeps the entries outside an eviction of `model_id`.
pub open spec fn survives_eviction(model_id: Seq<char>) -> spec_fn(KvSlotView) -> bool {
    |p: KvSlotView| !belongs_to_model(p.1, model_id)
}

/// The test that picks the entries of an eviction of `model_id`.
pub open spec fn falls_to_eviction(model_id: Seq<char>) -> spec_fn(KvSlotView) -> bool {
    |p: KvSlotView| belongs_to_model(p.1, model_id)
}

/// The records of an index.
pub open spec fn metas_of(s: Seq<KvSlotView>) -> Seq<KvMetaView> {
    s.map_values(|p: KvSlotView| p.1)
}

/// An index built from loaded pairs: each key at its first occurrence.
pub open spec fn first_of_each_key(s: Seq<KvSlotView>) -> Seq<KvSlotView>
    decreases s.len(),
{
    if s.len() == 0 {
        s
    } else {
        let rest = first_of_each_key(s.drop_last());
        if keys_of(rest).contains(s.last().0) {
            rest
        } else {
            rest.push(s.last())
        }
    }
}

/// What a lookup of `k` at time `now` does: it misses and changes nothing
/// when there is no entry under `k`; it finds an expired entry and removes
/// it; it finds a live entry and makes it the most recently used.
pub open spec fn looked_up(
    before: Seq<KvSlotView>,
    after: Seq<KvSlotView>,
    k: Seq<char>,
    now: u64,
    r: KvLookup,
) -> bool {
    match meta_for(before, k) {
        None => r is Miss && after == before,
        Some(m) => if is_expired(m, now) {
            &&& r matches KvLookup::Expired(x) && x@ == m
            &&& after == without_key(before, k)
        } else {
            &&& r matches KvLookup::Hit(x) && x@ == m
            &&& after == with_front(before, k, m)
        },
    }
}

/// The index after recording `m` under `k` in front, before the capacity
/// is enforced.
pub open spec fn with_front(s: Seq<KvSlotView>, k: Seq<char>, m: KvMetaView) -> Seq<KvSlotView> {
    seq![(k, m)] + without_key(s, k)
}

// ---------- lemmas on the model ----------

proof fn lemma_keys_remove(s: Seq<KvSlotView>, i: int)
    requires
        0 <= i < s.len(),
    ensures
        keys_of(s.remove(i)) == keys_of(s).remove(i),
{
    assert(keys_of(s.remove(i)) =~= keys_of(s).remove(i));
}

/// Removing an entry by key leaves no entry under that key, keeps the other
/// keys distinct, and brings in no new key.
pub proof fn lemma_without_key(s: Seq<KvSlotView>, k: Seq<char>)
    requires
        keys_of(s).no_duplicates(),
    ensures
        keys_of(without_key(s, k)).no_duplicates(),
        !keys_of(without_key(s, k)).contains(k),
        forall|x: Seq<char>| keys_of(without_key(s, k)).contains(x) ==> keys_of(s).contains(x),
{
    keys_of(s).index_of_first_ensures(k);
    match keys_of(s).index_of_first(k) {
        Some(i) => {
            lemma_keys_remove(s, i);
            lemma_no_dup_remove(keys_of(s), i);
        },
        None => {},
    }
}

proof fn lemma_no_dup_cons(k: Seq<char>, m: KvMetaView, s: Seq<KvSlotView>)
    requires
        keys_of(s).no_duplicates(),
        !keys_of(s).contains(k),
    ensures
        keys_of(seq![(k, m)] + s).no_duplicates(),
{
    let t = seq![(k, m)] + s;
    assert(keys_of(t) =~= seq![k] + keys_of(s));
    assert forall|a: int, b: int|
        0 <= a < keys_of(t).len() && 0 <= b < keys_of(t).len() && a != b implies keys_of(t)[a]
        != keys_of(t)[b] by {
        if a == 0 {
            assert(keys_of(s)[b - 1] == keys_of(t)[b]);
        } else if b == 0 {
            assert(keys_of(s)[a - 1] == keys_of(t)[a]);
        }
    }
}

proof fn lemma_no_dup_drop_last(s: Seq<KvSlotView>)
    requires
        s.len() > 0,
        keys_of(s).no_duplicates(),
    ensures
        keys_of(s.drop_last()).no_duplicates(),
{
    assert(keys_of(s.drop_last()) =~= keys_of(s).drop_last());
    assert(keys_of(s).drop_last() =~= keys_of(s).remove(keys_of(s).len() - 1));
    lemma_no_dup_remove(keys_of(s), keys_of(s).len() - 1);
}

/// The index with `m` in front under `k` holds each key once.
pub proof fn lemma_with_front(s: Seq<KvSlotView>, k: Seq<char>, m: KvMetaView)
    requires
        keys_of(s).no_duplicates(),
    ensures
        keys_of(with_front(s, k, m)).no_duplicates(),
        with_front(s, k, m).len() > 0 ==> keys_of(with_front(s, k, m).drop_last()).no_duplicates(),
{
    lemma_without_key(s, k);
    lemma_no_dup_cons(k, m, without_key(s, k));
    if with_front(s, k, m).len() > 0 {
        lemma_no_dup_drop_last(with_front(s, k, m));
    }
}

// ---------- names and paths ----------

/// Whether `c` is replaced in file names.
fn unsafe_char(c: char) -> (r: bool)
    ensures
        r == is_unsafe_char(c),
{
    c == '/' || c == '\\' || c == ':' || c == '*' || c == '?' || c == '"' || c == '<' || c
        == '>' || c == '|' || c == '\0'
}

/// Replaces filesystem-unsafe characters by `_`, so that a model id or a
/// prefix hash cannot reach outside its directory.
pub fn safe_name(s: &str) -> (r: String)
    ensures
        r@ == safe_name_spec(s@),
{
    let chars = crate::text::char_vec(s);
    let mut r = String::new();
    let mut i: usize = 0;
    while i < chars.len()
        invariant
            chars@ == s@,
            i <= chars.len(),
            r@ == safe_name_spec(s@.subrange(0, i as int)),
        decreases chars.len() - i,
    {
        let c = chars[i];
        let d = if unsafe_char(c) {
            '_'
        } else {
            c
        };
        push_char(&mut r, d);
        i = i + 1;
        assert(safe_name_spec(s@.subrange(0, i as int)) =~= safe_name_spec(
            s@.subrange(0, i - 1 as int),
        ).push(d));
    }
    assert(s@.subrange(0, i as int) =~= s@);
    r
}

/// The composite index key `"{model_id}\0{prefix_hash}"`.
pub fn make_key(model_id: &str, prefix_hash: &str) -> (r: String)
    ensures
        r@ == make_key_spec(model_id@, prefix_hash@),
{
    let mut r = model_id.to_owned();
    push_char(&mut r, '\0');
    r.append(prefix_hash);
    r
}

/// `dir` joined with the relative component `name`.
fn join(dir: &str, name: &str) -> (r: String)
    ensures
        r@ == join_path(dir@, name@),
{
    let chars = crate::text::char_vec(dir);
    let mut r = dir.to_owned();
    if chars.len() > 0 && chars[chars.len() - 1] != '/' {
        push_char(&mut r, '/');
    }
    r.append(name);
    r
}

impl KvCacheStore {
    /// The entries, most recently used first.
    pub closed spec fn entries(&self) -> Seq<KvSlotView> {
        self.slots@.map_values(|s: KvSlot| (s.key@, s.meta@))
    }

    /// The number of entries above which a write evicts.
    pub closed spec fn capacity(&self) -> usize {
        self.max_entries
    }

    /// The directory that holds the slabs.
    pub closed spec fn dir(&self) -> Seq<char> {
        self.data_dir@
    }

    /// Each key occurs once.
    pub open spec fn wf(&self) -> bool {
        keys_of(self.entries()).no_duplicates()
    }

    /// An empty index over `data_dir`.
    pub fn new(data_dir: &str, max_entries: usize) -> (s: Self)
        ensures
            s.wf(),
            s.entries() == Seq::<KvSlotView>::empty(),
            s.capacity() == max_entries,
            s.dir() == data_dir@,
    {
        let s = KvCacheStore { data_dir: data_dir.to_owned(), slots: Vec::new(), max_entries };
        assert(s.entries() =~= Seq::<KvSlotView>::empty());
        s
    }

    /// An index over `data_dir` holding the loaded pairs; a key that occurs
    /// twice keeps its first record.
    pub fn restore(data_dir: &str, max_entries: usize, loaded: Vec<(String, KvMeta)>) -> (s: Self)
        ensures
            s.wf(),
            s.entries() == first_of_each_key(
                loaded@.map_values(|p: (String, KvMeta)| (p.0@, p.1@)),
            ),
            s.capacity() == max_entries,
            s.dir() == data_dir@,
    {
        let ghost src = loaded@.map_values(|p: (String, KvMeta)| (p.0@, p.1@));
        let mut s = KvCacheStore::new(data_dir, max_entries);
        let mut i: usize = 0;
        while i < loaded.len()
            invariant
                src == loaded@.map_values(|p: (String, KvMeta)| (p.0@, p.1@)),
                i <= loaded.len(),
                s.wf(),
                s.entries() == first_of_each_key(src.subrange(0, i as int)),
                s.capacity() == max_entries,
                s.dir() == data_dir@,
            decreases loaded.len() - i,
        {
            let ghost pre = s.entries();
            assert(src.subrange(0, i + 1 as int).drop_last() =~= src.subrange(0, i as int));
            let key = &loaded[i].0;
            match s.position_of(key) {
                Some(_) => {
                    proof {
                        keys_of(pre).index_of_first_ensures(key@);
                    }
                },
                None => {
                    proof {
                        keys_of(pre).index_of_first_ensures(key@);
                    }
                    let slot = KvSlot { key: key.clone(), meta: loaded[i].1.copy() };
                    s.slots.push(slot);
                    proof {
                        assert(s.entries() =~= pre.push((key@, loaded@[i as int].1@)));
                        assert(keys_of(s.entries()) =~= keys_of(pre).push(key@));
                        assert forall|a: int, b: int|
                            0 <= a < keys_of(s.entries()).len() && 0 <= b < keys_of(
                                s.entries(),
                            ).len() && a != b implies keys_of(s.entries())[a] != keys_of(
                            s.entries(),
                        )[b] by {
                            if a == pre.len() {
                                assert(keys_of(pre).contains(keys_of(pre)[b]));
                            } else if b == pre.len() {
                                assert(keys_of(pre).contains(keys_of(pre)[a]));
                            }
                        }
                    }
                },
            }
            i = i + 1;
        }
        assert(src.subrange(0, loaded.len() as int) =~= src);
        s
    }

    /// The position of `key` in recency order, if it is present.
    fn position_of(&self, key: &String) -> (r: Option<usize>)
        ensures
            match r {
                Some(i) => {
                    &&& keys_of(self.entries()).index_of_first(key@) == Some(i as int)
                    &&& i < self.entries().len()
                    &&& keys_of(self.entries())[i as int] == key@
                    &&& meta_for(self.entries(), key@) == Some(self.entries()[i as int].1)
                },
                None => keys_of(self.entries()).index_of_first(key@) is None,
            },
    {
        let mut i: usize = 0;
        while i < self.slots.len()
            invariant
                i <= self.slots.len(),
                forall|j: int| 0 <= j < i ==> keys_of(self.entries())[j] != key@,
            decreases self.slots.len() - i,
        {
            if self.slots[i].key == *key {
                proof {
                    lemma_index_of_first(keys_of(self.entries()), key@, i as int);
                }
                return Some(i);
            }
            i = i + 1;
        }
        proof {
            lemma_index_of_first_none(keys_of(self.entries()), key@);
        }
        None
    }

    /// Removes and returns the entry at position `i`.
    fn take_slot(&mut self, i: usize) -> (slot: KvSlot)
        requires
            i < old(self).entries().len(),
        ensures
            final(self).entries() == old(self).entries().remove(i as int),
            (slot.key@, slot.meta@) == old(self).entries()[i as int],
            final(self).data_dir == old(self).data_dir,
            final(self).max_entries == old(self).max_entries,
    {
        let slot = self.slots.remove(i);
        assert(self.entries() =~= old(self).entries().remove(i as int));
        slot
    }

    /// The directory that holds `model_id`'s slabs.
    pub fn model_dir(&self, model_id: &str) -> (r: String)
        ensures
            r@ == model_dir_spec(self.dir(), model_id@),
    {
        let name = safe_name(model_id);
        join(self.data_dir.as_str(), name.as_str())
    }

    /// The record that a write of `entry` at time `now_ms` makes: the slab's
    /// file, its size, and its creation time (`now_ms` where the entry has
    /// none). An entry without a prefix hash or a model id is refused.
    pub fn plan_write_at(&self, entry: &KvEntry, now_ms: u64) -> (r: Result<KvMeta, KvError>)
        ensures
            r is Err <==> (entry.prefix_hash@.len() == 0 || entry.model_id@.len() == 0),
            r matches Err(e) ==> e is Index,
            r matches Ok(m) ==> m@ == (KvMetaView {
                prefix_hash: entry.prefix_hash@,
                model_id: entry.model_id@,
                seq_len: entry.seq_len,
                file_path: slab_path_spec(self.dir(), entry.model_id@, entry.prefix_hash@),
                file_size: entry.data@.len() as u64,
                created_at_ms: if entry.created_at_ms == 0 {
                    now_ms
                } else {
                    entry.created_at_ms
                },
                ttl_ms: entry.ttl_ms,
            }),
    {
        if entry.prefix_hash.as_str().is_empty() || entry.model_id.as_str().is_empty() {
            return Err(KvError::Index("prefix_hash and model_id must be non-empty".to_owned()));
        }
        let created_at_ms = if entry.created_at_ms == 0 {
            now_ms
        } else {
            entry.created_at_ms
        };
        let model_dir = self.model_dir(entry.model_id.as_str());
        let mut file_name = safe_name(entry.prefix_hash.as_str());
        push_char(&mut file_name, '.');
        push_char(&mut file_name, 'b');
        push_char(&mut file_name, 'i');
        push_char(&mut file_name, 'n');
        assert(file_name@ =~= safe_name_spec(entry.prefix_hash@) + seq!['.', 'b', 'i', 'n']);
        let file_path = join(model_dir.as_str(), file_name.as_str());
        Ok(
            KvMeta {
                prefix_hash: entry.prefix_hash.clone(),
                model_id: entry.model_id.clone(),
                seq_len: entry.seq_len,
                file_path,
                file_size: entry.data.len() as u64,
                created_at_ms,
                ttl_ms: entry.ttl_ms,
            },
        )
    }

    /// The record that a write of `entry` makes now: as
    /// [`KvCacheStore::plan_write_at`], with the clock's time as the creation
    /// time of an entry that has none.
    pub fn plan_write(&self, entry: &KvEntry) -> (r: Result<KvMeta, KvError>)
        ensures
            r is Err <==> (entry.prefix_hash@.len() == 0 || entry.model_id@.len() == 0),
            r matches Err(e) ==> e is Index,
            r matches Ok(m) ==> {
                &&& m.prefix_hash@ == entry.prefix_hash@
                &&& m.model_id@ == entry.model_id@
                &&& m.seq_len == entry.seq_len
                &&& m.file_path@ == slab_path_spec(self.dir(), entry.model_id@, entry.prefix_hash@)
                &&& m.file_size == entry.data@.len() as u64
                &&& entry.created_at_ms != 0 ==> m.created_at_ms == entry.created_at_ms
                &&& entry.created_at_ms == 0 ==> wall_clock_ms(m.created_at_ms)
                &&& m.ttl_ms == entry.ttl_ms
            },
    {
        let now = if entry.created_at_ms == 0 {
            now_ms()
        } else {
            entry.created_at_ms
        };
        self.plan_write_at(entry, now)
    }

    /// Records a written slab as the most recently used entry, replacing the
    /// entry under the same key. When the index then holds more entries than
    /// its capacity, the least recently used entry leaves and is returned (its
    /// file is to be removed).
    pub fn record_write(&mut self, meta: KvMeta) -> (evicted: Option<KvMeta>)
        requires
            old(self).wf(),
        ensures
            final(self).wf(),
            final(self).capacity() == old(self).capacity(),
            final(self).dir() == old(self).dir(),
            ({
                let k = make_key_spec(meta.model_id@, meta.prefix_hash@);
                let grown = with_front(old(self).entries(), k, meta@);
                if grown.len() > old(self).capacity() {
                    &&& final(self).entries() == grown.drop_last()
                    &&& evicted matches Some(e) && e@ == grown.last().1
                } else {
                    &&& final(self).entries() == grown
                    &&& evicted is None
                }
            }),
    {
        let ghost k = make_key_spec(meta.model_id@, meta.prefix_hash@);
        let key = make_key(meta.model_id.as_str(), meta.prefix_hash.as_str());
        match self.position_of(&key) {
            Some(i) => {
                let _ = self.take_slot(i);
            },
            None => {},
        }
        assert(self.entries() == without_key(old(self).entries(), k));
        let ghost meta_view = meta@;
        self.slots.insert(0, KvSlot { key, meta });
        assert(self.entries() =~= with_front(old(self).entries(), k, meta_view));
        proof {
            lemma_with_front(old(self).entries(), k, meta_view);
        }
        if self.slots.len() > self.max_entries {
            let last = self.slots.pop();
            assert(self.entries() =~= with_front(old(self).entries(), k, meta_view).drop_last());
            match last {
                Some(slot) => Some(slot.meta),
                None => None,
            }
        } else {
            None
        }
    }

    /// Looks up the slab of `model_id` for `prefix_hash` at time `now_ms`.
    /// A present entry that has expired leaves the index; a present live
    /// entry becomes the most recently used.
    pub fn lookup_at(&mut self, prefix_hash: &str, model_id: &str, now_ms: u64) -> (r: KvLookup)
        requires
            old(self).wf(),
        ensures
            final(self).wf(),
            final(self).capacity() == old(self).capacity(),
            final(self).dir() == old(self).dir(),
            looked_up(
                old(self).entries(),
                final(self).entries(),
                make_key_spec(model_id@, prefix_hash@),
                now_ms,
                r,
            ),
    {
        let ghost k = make_key_spec(model_id@, prefix_hash@);
        let key = make_key(model_id, prefix_hash);
        match self.position_of(&key) {
            None => KvLookup::Miss,
            Some(i) => {
                let slot = self.take_slot(i);
                assert(self.entries() == without_key(old(self).entries(), k));
                proof {
                    lemma_without_key(old(self).entries(), k);
                }
                let m = &slot.meta;
                let expired = m.ttl_ms > 0 && (m.created_at_ms as u128) + (m.ttl_ms as u128) < (
                now_ms as u128);
                if expired {
                    KvLookup::Expired(slot.meta)
                } else {
                    let found = slot.meta.copy();
                    let ghost mv = slot.meta@;
                    self.slots.insert(0, slot);
                    assert(self.entries() =~= with_front(old(self).entries(), k, mv));
                    proof {
                        lemma_with_front(old(self).entries(), k, mv);
                    }
                    KvLookup::Hit(found)
                }
            },
        }
    }

    /// Looks up the slab of `model_id` for `prefix_hash` now: as
    /// [`KvCacheStore::lookup_at`] at the clock's time.
    pub fn lookup(&mut self, prefix_hash: &str, model_id: &str) -> (r: KvLookup)
        requires
            old(self).wf(),
        ensures
            final(self).wf(),
            final(self).capacity() == old(self).capacity(),
            final(self).dir() == old(self).dir(),
            exists|t: u64|
                wall_clock_ms(t) && looked_up(
                    old(self).entries(),
                    final(self).entries(),
                    make_key_spec(model_id@, prefix_hash@),
                    t,
                    r,
                ),
    {
        let now = now_ms();
        assert(wall_clock_ms(now));
        self.lookup_at(prefix_hash, model_id, now)
    }

    /// Removes every entry of `model_id` (of every model when `model_id` is
    /// empty) and returns their records, whose files are to be removed.
    pub fn evict_model(&mut self, model_id: &str) -> (removed: Vec<KvMeta>)
        requires
            old(self).wf(),
        ensures
            final(self).wf(),
            final(self).capacity() == old(self).capacity(),
            final(self).dir() == old(self).dir(),
            final(self).entries() == old(self).entries().filter(survives_eviction(model_id@)),
            removed@.map_values(|m: KvMeta| m@) == metas_of(
                old(self).entries().filter(falls_to_eviction(model_id@)),
            ),
    {
        broadcast use vstd::seq_lib::group_seq_properties;

        let ghost s = old(self).entries();
        let all = model_id.is_empty();
        let mut old_slots: Vec<KvSlot> = Vec::new();
        std::mem::swap(&mut old_slots, &mut self.slots);
        assert(old_slots@.map_values(|x: KvSlot| (x.key@, x.meta@)) == s);
        let mut removed: Vec<KvMeta> = Vec::new();
        let mut i: usize = 0;
        assert(s.subrange(0, 0).filter(survives_eviction(model_id@)) =~= Seq::<
            KvSlotView,
        >::empty());
        assert(s.subrange(0, 0).filter(falls_to_eviction(model_id@)) =~= Seq::<
            KvSlotView,
        >::empty());
        assert(self.entries() =~= Seq::<KvSlotView>::empty());
        while i < old_slots.len()
            invariant
                s == old_slots@.map_values(|x: KvSlot| (x.key@, x.meta@)),
                keys_of(s).no_duplicates(),
                all == (model_id@.len() == 0),
                i <= old_slots.len(),
                self.data_dir == old(self).data_dir,
                self.max_entries == old(self).max_entries,
                self.entries() == s.subrange(0, i as int).filter(survives_eviction(model_id@)),
                removed@.map_values(|m: KvMeta| m@) == metas_of(
                    s.subrange(0, i as int).filter(falls_to_eviction(model_id@)),
                ),
                keys_of(self.entries()).no_duplicates(),
                forall|x: Seq<char>|
                    keys_of(self.entries()).contains(x) ==> keys_of(
                        s.subrange(0, i as int),
                    ).contains(x),
            decreases old_slots.len() - i,
        {
            let ghost pre = self.entries();
            let ghost pre_removed = removed@.map_values(|m: KvMeta| m@);
            let slot = &old_slots[i];
            let ghost item = s[i as int];
            assert(s.subrange(0, i + 1 as int) =~= s.subrange(0, i as int).push(item));
            let hit = all || str_equal(slot.meta.model_id.as_str(), model_id);
            assert(hit == belongs_to_model(item.1, model_id@));
            proof {
                Seq::lemma_filter_push(s.subrange(0, i as int), item, survives_eviction(model_id@));
                Seq::lemma_filter_push(s.subrange(0, i as int), item, falls_to_eviction(model_id@));
            }
            if hit {
                removed.push(slot.meta.copy());
                assert(removed@.map_values(|m: KvMeta| m@) =~= pre_removed.push(item.1));
                assert(metas_of(s.subrange(0, i as int).filter(falls_to_eviction(model_id@)).push(
                    item,
                )) =~= metas_of(s.subrange(0, i as int).filter(falls_to_eviction(model_id@))).push(
                    item.1,
                ));
                assert forall|x: Seq<char>| keys_of(self.entries()).contains(x) implies keys_of(
                    s.subrange(0, i + 1 as int),
                ).contains(x) by {
                    let a = choose|a: int|
                        0 <= a < keys_of(s.subrange(0, i as int)).len() && keys_of(
                            s.subrange(0, i as int),
                        )[a] == x;
                    assert(keys_of(s.subrange(0, i + 1 as int))[a] == x);
                }
            } else {
                let kept = KvSlot { key: slot.key.clone(), meta: slot.meta.copy() };
                self.slots.push(kept);
                assert(self.entries() =~= pre.push(item));
                assert(keys_of(self.entries()) =~= keys_of(pre).push(item.0));
                assert(!keys_of(s.subrange(0, i as int)).contains(item.0)) by {
                    if keys_of(s.subrange(0, i as int)).contains(item.0) {
                        let a = choose|a: int|
                            0 <= a < keys_of(s.subrange(0, i as int)).len() && keys_of(
                                s.subrange(0, i as int),
                            )[a] == item.0;
                        assert(keys_of(s)[a] == keys_of(s)[i as int]);
                    }
                }
                assert forall|a: int, b: int|
                    0 <= a < keys_of(self.entries()).len() && 0 <= b < keys_of(
                        self.entries(),
                    ).len() && a != b implies keys_of(self.entries())[a] != keys_of(
                    self.entries(),
                )[b] by {
                    if a == pre.len() {
                        assert(keys_of(pre).contains(keys_of(pre)[b]));
                    } else if b == pre.len() {
                        assert(keys_of(pre).contains(keys_of(pre)[a]));
                    }
                }
                assert forall|x: Seq<char>| keys_of(self.entries()).contains(x) implies keys_of(
                    s.subrange(0, i + 1 as int),
                ).contains(x) by {
                    let a = choose|a: int|
                        0 <= a < keys_of(self.entries()).len() && keys_of(self.entries())[a] == x;
                    if a == pre.len() {
                        assert(keys_of(s.subrange(0, i + 1 as int))[i as int] == x);
                    } else {
                        assert(keys_of(pre).contains(x));
                        let b = choose|b: int|
                            0 <= b < keys_of(s.subrange(0, i as int)).len() && keys_of(
                                s.subrange(0, i as int),
                            )[b] == x;
                        assert(keys_of(s.subrange(0, i + 1 as int))[b] == x);
                    }
                }
            }
            i = i + 1;
        }
        assert(s.subrange(0, old_slots.len() as int) =~= s);
        removed
    }

    /// Removes the entry under `key` and returns its record.
    pub fn delete_entry(&mut self, key: &str) -> (r: Option<KvMeta>)
        requires
            old(self).wf(),
        ensures
            final(self).wf(),
            final(self).capacity() == old(self).capacity(),
            final(self).dir() == old(self).dir(),
            final(self).entries() == without_key(old(self).entries(), key@),
            match meta_for(old(self).entries(), key@) {
                Some(m) => r matches Some(x) && x@ == m,
                None => r is None,
            },
    {
        let owned = key.to_owned();
        proof {
            lemma_without_key(old(self).entries(), key@);
        }
        match self.position_of(&owned) {
            Some(i) => {
                let slot = self.take_slot(i);
                Some(slot.meta)
            },
            None => None,
        }
    }

    /// The number of entries.
    pub fn count(&self) -> (n: usize)
        ensures
            n == self.entries().len(),
    {
        self.slots.len()
    }

    /// The entries as (key, record) pairs, most recently used first.
    pub fn snapshot(&self) -> (r: Vec<(String, KvMeta)>)
        ensures
            r@.map_values(|p: (String, KvMeta)| (p.0@, p.1@)) == self.entries(),
    {
        let mut r: Vec<(String, KvMeta)> = Vec::new();
        let mut i: usize = 0;
        while i < self.slots.len()
            invariant
                i <= self.slots.len(),
                r@.map_values(|p: (String, KvMeta)| (p.0@, p.1@)) == self.entries().subrange(
                    0,
                    i as int,
                ),
            decreases self.slots.len() - i,
        {
            let slot = &self.slots[i];
            assert(self.entries()[i as int] == (slot.key@, slot.meta@));
            let ghost pre = r@;
            let k = slot.key.clone();
            let m = slot.meta.copy();
            r.push((k, m));
            assert(r@.map_values(|p: (String, KvMeta)| (p.0@, p.1@)) =~= pre.map_values(
                |p: (String, KvMeta)| (p.0@, p.1@),
            ).push((slot.key@, slot.meta@)));
            assert(r@.map_values(|p: (String, KvMeta)| (p.0@, p.1@)) =~= self.entries().subrange(
                0,
                i + 1 as int,
            ));
            i = i + 1;
        }
        assert(self.entries().subrange(0, i as int) =~= self.entries());
        r
    }
}

} // verus!
