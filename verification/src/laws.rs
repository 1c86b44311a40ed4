//! Properties that hold across the library's operations, stated over the
//! models that the operations' contracts use, and proved.

use crate::cluster::{dead_at, deadline_after, ClusterManager, DEAD_PEER_TIMEOUT_MS};
use crate::config::{peer_list, trim};
use crate::entries::{
    entry_for, ids_of, lemma_entry_push, lemma_entry_without, lemma_without_id, without_id,
    MemoryEntryView,
};
use crate::eviction::{lemma_touched_no_duplicates, lru_victims, touched};
use crate::kvcache::{
    lemma_with_front, lemma_without_key, looked_up, KvLookup,
    belongs_to_model, falls_to_eviction, is_unsafe_char, keys_of, make_key_spec, meta_for,
    safe_name_spec, survives_eviction, with_front, without_key, KvMetaView, KvSlotView,
};
use crate::registry::{chunk_expired, fresh_ids};
use crate::router::{lemma_others_len, lemma_strictly_sorted_no_duplicates, lemma_strictly_sorted_unique, others, owner_of, strictly_sorted};
use crate::service::{routes_at, survives_merge, WriteRoute};
use crate::text::{lemma_index_of_first, lemma_remove_value_no_dup};
use vstd::prelude::*;

verus! {

/// In an index whose keys are distinct, the entry under a key is the one at
/// the key's position, and removing the key leaves the others' entries.
proof fn lemma_meta_without(s: Seq<KvSlotView>, k: Seq<char>, x: Seq<char>)
    requires
        keys_of(s).no_duplicates(),
        x != k,
    ensures
        meta_for(without_key(s, k), x) == meta_for(s, x),
{
    keys_of(s).index_of_first_ensures(k);
    keys_of(s).index_of_first_ensures(x);
    match keys_of(s).index_of_first(k) {
        Some(i) => {
            let r = s.remove(i);
            assert(keys_of(r) =~= keys_of(s).remove(i));
            keys_of(r).index_of_first_ensures(x);
            match keys_of(s).index_of_first(x) {
                Some(j) => {
                    let jj = if j < i {
                        j
                    } else {
                        j - 1
                    };
                    assert(j != i);
                    assert(keys_of(r)[jj] == x);
                    assert forall|a: int| 0 <= a < jj implies keys_of(r)[a] != x by {
                        if a < i {
                            assert(keys_of(r)[a] == keys_of(s)[a]);
                        } else {
                            assert(keys_of(r)[a] == keys_of(s)[a + 1]);
                        }
                    }
                    lemma_index_of_first(keys_of(r), x, jj);
                    assert(r[jj] == s[j]);
                },
                None => {
                    if keys_of(r).contains(x) {
                        let a = choose|a: int| 0 <= a < keys_of(r).len() && keys_of(r)[a] == x;
                        if a < i {
                            assert(keys_of(s)[a] == x);
                        } else {
                            assert(keys_of(s)[a + 1] == x);
                        }
                    }
                },
            }
        },
        None => {},
    }
}

/// Read after write: once a slab is recorded, the index holds its record
/// under its key, whatever the index held before, provided the index may
/// hold at least one entry.
pub proof fn law_kv_read_after_write(s: Seq<KvSlotView>, capacity: usize, m: KvMetaView)
    requires
        keys_of(s).no_duplicates(),
        capacity >= 1,
    ensures
        ({
            let k = make_key_spec(m.model_id, m.prefix_hash);
            let grown = with_front(s, k, m);
            let after = if grown.len() > capacity {
                grown.drop_last()
            } else {
                grown
            };
            meta_for(after, k) == Some(m)
        }),
{
    let k = make_key_spec(m.model_id, m.prefix_hash);
    let grown = with_front(s, k, m);
    assert(keys_of(grown)[0] == k);
    lemma_index_of_first(keys_of(grown), k, 0);
    if grown.len() > capacity {
        let after = grown.drop_last();
        assert(keys_of(after)[0] == k);
        lemma_index_of_first(keys_of(after), k, 0);
    }
}

/// A write leaves the other keys' records as they were, but for the least
/// recently used entry that an over-full index gives up.
pub proof fn law_kv_write_keeps_others(
    s: Seq<KvSlotView>,
    capacity: usize,
    m: KvMetaView,
    x: Seq<char>,
)
    requires
        keys_of(s).no_duplicates(),
        x != make_key_spec(m.model_id, m.prefix_hash),
    ensures
        ({
            let k = make_key_spec(m.model_id, m.prefix_hash);
            let grown = with_front(s, k, m);
            grown.len() <= capacity ==> meta_for(grown, x) == meta_for(s, x)
        }),
{
    let k = make_key_spec(m.model_id, m.prefix_hash);
    let w = without_key(s, k);
    lemma_meta_without(s, k, x);
    let grown = with_front(s, k, m);
    assert(keys_of(grown) =~= seq![k] + keys_of(w));
    keys_of(w).index_of_first_ensures(x);
    keys_of(grown).index_of_first_ensures(x);
    match keys_of(w).index_of_first(x) {
        Some(j) => {
            assert(keys_of(grown)[j + 1] == x);
            assert forall|a: int| 0 <= a < j + 1 implies keys_of(grown)[a] != x by {
                if a > 0 {
                    assert(keys_of(grown)[a] == keys_of(w)[a - 1]);
                }
            }
            lemma_index_of_first(keys_of(grown), x, j + 1);
        },
        None => {
            if keys_of(grown).contains(x) {
                let a = choose|a: int| 0 <= a < keys_of(grown).len() && keys_of(grown)[a] == x;
                assert(keys_of(w)[a - 1] == x);
            }
        },
    }
}

/// Capacity: a write into an index within its capacity leaves it within its
/// capacity.
pub proof fn law_kv_write_within_capacity(s: Seq<KvSlotView>, capacity: usize, m: KvMetaView)
    requires
        keys_of(s).no_duplicates(),
        s.len() <= capacity,
    ensures
        ({
            let k = make_key_spec(m.model_id, m.prefix_hash);
            let grown = with_front(s, k, m);
            (if grown.len() > capacity {
                grown.drop_last()
            } else {
                grown
            }).len() <= capacity
        }),
{
    let k = make_key_spec(m.model_id, m.prefix_hash);
    keys_of(s).index_of_first_ensures(k);
}

/// The entry an over-full write gives up is the least recently used of the
/// entries other than the one written.
pub proof fn law_kv_evicts_least_recent(s: Seq<KvSlotView>, capacity: usize, m: KvMetaView)
    requires
        keys_of(s).no_duplicates(),
    ensures
        ({
            let k = make_key_spec(m.model_id, m.prefix_hash);
            let grown = with_front(s, k, m);
            grown.len() > capacity && capacity >= 1 ==> grown.last() == without_key(s, k).last()
        }),
{
}

/// Evicting a model leaves no entry of that model (none at all for the
/// empty model id), keeps every other entry, and removes as many entries as
/// it returns.
pub proof fn law_kv_evict_model(s: Seq<KvSlotView>, model_id: Seq<char>)
    ensures
        forall|i: int|
            0 <= i < s.filter(survives_eviction(model_id)).len() ==> !belongs_to_model(
                #[trigger] s.filter(survives_eviction(model_id))[i].1,
                model_id,
            ),
        forall|i: int|
            0 <= i < s.len() && !belongs_to_model(#[trigger] s[i].1, model_id) ==> s.filter(
                survives_eviction(model_id),
            ).contains(s[i]),
        s.filter(survives_eviction(model_id)).len() + s.filter(falls_to_eviction(model_id)).len()
            == s.len(),
    decreases s.len(),
{
    broadcast use vstd::seq_lib::group_filter_ensures;

    if s.len() > 0 {
        law_kv_evict_model(s.drop_last(), model_id);
        Seq::lemma_filter_push(s.drop_last(), s.last(), survives_eviction(model_id));
        Seq::lemma_filter_push(s.drop_last(), s.last(), falls_to_eviction(model_id));
        assert(s.drop_last().push(s.last()) =~= s);
        assert forall|i: int| 0 <= i < s.filter(survives_eviction(model_id)).len() implies !belongs_to_model(
            #[trigger] s.filter(survives_eviction(model_id))[i].1,
            model_id,
        ) by {
            s.lemma_filter_pred(survives_eviction(model_id), i);
        }
    } else {
        assert(s.filter(survives_eviction(model_id)) =~= s) by {
            reveal(Seq::filter);
        }
        assert(s.filter(falls_to_eviction(model_id)) =~= s) by {
            reveal(Seq::filter);
        }
    }
}

/// The composite key tells its parts apart: model ids without a NUL
/// character never collide.
pub proof fn law_kv_key_injective(m1: Seq<char>, h1: Seq<char>, m2: Seq<char>, h2: Seq<char>)
    requires
        !m1.contains('\0'),
        !m2.contains('\0'),
        make_key_spec(m1, h1) == make_key_spec(m2, h2),
    ensures
        m1 == m2,
        h1 == h2,
{
    let k = make_key_spec(m1, h1);
    if m1.len() < m2.len() {
        assert(k[m1.len() as int] == '\0');
        assert(m2[m1.len() as int] == k[m1.len() as int]);
    } else if m2.len() < m1.len() {
        assert(k[m2.len() as int] == '\0');
        assert(m1[m2.len() as int] == k[m2.len() as int]);
    }
    assert(m1.len() == m2.len());
    assert forall|i: int| 0 <= i < m1.len() implies m1[i] == m2[i] by {
        assert(k[i] == m1[i]);
    }
    assert(m1 =~= m2);
    let k2 = make_key_spec(m2, h2);
    assert(k.len() == m1.len() + 1 + h1.len());
    assert(k2.len() == m2.len() + 1 + h2.len());
    assert(k.len() == k2.len());
    assert(h1.len() == h2.len());
    assert forall|i: int| 0 <= i < h1.len() implies h1[i] == h2[i] by {
        assert(k[m1.len() + 1 + i] == h1[i]);
        assert(k2[m2.len() + 1 + i] == h2[i]);
    }
    assert(h1 =~= h2);
}

/// A safe name has the length of the name and no character that could
/// leave its directory.
pub proof fn law_safe_name(s: Seq<char>)
    ensures
        safe_name_spec(s).len() == s.len(),
        forall|i: int| 0 <= i < s.len() ==> !is_unsafe_char(#[trigger] safe_name_spec(s)[i]),
        safe_name_spec(safe_name_spec(s)) == safe_name_spec(s),
{
    assert(safe_name_spec(safe_name_spec(s)) =~= safe_name_spec(s));
}

/// Using an id (a write or an access) makes it the most recently used and
/// keeps each id once in the recency order.
pub proof fn law_lru_touch(order: Seq<Seq<char>>, id: Seq<char>)
    requires
        order.no_duplicates(),
    ensures
        touched(order, id).no_duplicates(),
        touched(order, id)[0] == id,
        touched(order, id).to_set() == order.to_set().insert(id),
{
    lemma_touched_no_duplicates(order, id);
}

/// The most recently used id is chosen for eviction only when every id is.
pub proof fn law_lru_spares_most_recent(order: Seq<Seq<char>>, id: Seq<char>, k: int)
    requires
        order.no_duplicates(),
        0 <= k < touched(order, id).len(),
    ensures
        !lru_victims(touched(order, id), k).contains(id),
{
    lemma_touched_no_duplicates(order, id);
    let t = touched(order, id);
    if lru_victims(t, k).contains(id) {
        let a = choose|a: int| 0 <= a < lru_victims(t, k).len() && lru_victims(t, k)[a] == id;
        assert(lru_victims(t, k).len() == k);
        assert(lru_victims(t, k)[a] == t[t.len() - 1 - a]);
        assert(t.len() - 1 - a != 0);
        assert(t[t.len() - 1 - a] == t[0]);
    }
}

/// A deleted id is gone from the recency order, and the others stay once
/// each.
pub proof fn law_lru_delete(order: Seq<Seq<char>>, id: Seq<char>)
    requires
        order.no_duplicates(),
    ensures
        !order.remove_value(id).contains(id),
        order.remove_value(id).no_duplicates(),
{
    lemma_remove_value_no_dup(order, id);
}

/// All nodes agree on session owners: routers over the same set of
/// addresses, given in any order, send every session to the same node.
pub proof fn law_router_agreement(
    a: Seq<Seq<char>>,
    b: Seq<Seq<char>>,
    local_a: Seq<char>,
    local_b: Seq<char>,
    session_id: Seq<char>,
)
    requires
        strictly_sorted(a),
        strictly_sorted(b),
        a.to_set() == b.to_set(),
        a.len() > 0,
    ensures
        owner_of(a, local_a, session_id) == owner_of(b, local_b, session_id),
{
    lemma_strictly_sorted_unique(a, b);
}

/// A session's owner is one of the nodes.
pub proof fn law_router_owner_is_node(nodes: Seq<Seq<char>>, local: Seq<char>, session_id: Seq<char>)
    requires
        nodes.len() > 0,
    ensures
        nodes.contains(owner_of(nodes, local, session_id)),
{
    let i = ((crate::router::default_hash_of(session_id) as usize) as int) % (nodes.len() as int);
    assert(nodes[i] == owner_of(nodes, local, session_id));
}

/// A single-node cluster owns every session.
pub proof fn law_router_single_node(local: Seq<char>, session_id: Seq<char>)
    ensures
        owner_of(seq![local], local, session_id) == local,
{
    let i = ((crate::router::default_hash_of(session_id) as usize) as int) % 1;
    assert(i == 0);
}

/// The peers exclude this node, and when this node is among the nodes the
/// peer count is the number of peers.
pub proof fn law_router_peers(nodes: Seq<Seq<char>>, local: Seq<char>)
    requires
        strictly_sorted(nodes),
        nodes.contains(local),
    ensures
        !others(nodes, local).contains(local),
        others(nodes, local).len() == nodes.len() - 1,
{
    lemma_strictly_sorted_no_duplicates(nodes);
    lemma_others_len(nodes, local);
}

/// A peer marked dead is dead until the window after the mark has passed,
/// and alive from then on.
pub proof fn law_dead_peer_window(m: Map<Seq<char>, u64>, addr: Seq<char>, marked: u64, now: u64)
    requires
        marked + DEAD_PEER_TIMEOUT_MS <= u64::MAX,
    ensures
        dead_at(m.insert(addr, deadline_after(marked)), addr, now) <==> now < marked
            + DEAD_PEER_TIMEOUT_MS,
{
}

/// A cleared peer is not dead.
pub proof fn law_dead_peer_cleared(m: Map<Seq<char>, u64>, addr: Seq<char>, now: u64)
    ensures
        !dead_at(m.remove(addr), addr, now),
{
}

/// The parsed peer list holds no empty address.
pub proof fn law_peer_list_nonempty(fields: Seq<Seq<char>>)
    ensures
        forall|i: int| 0 <= i < peer_list(fields).len() ==> #[trigger] peer_list(fields)[i].len() > 0,
    decreases fields.len(),
{
    if fields.len() > 0 {
        law_peer_list_nonempty(fields.drop_last());
        let r = peer_list(fields.drop_last());
        if trim(fields.last()).len() != 0 {
            assert forall|i: int| 0 <= i < r.push(trim(fields.last())).len() implies #[trigger] r.push(
                trim(fields.last()),
            )[i].len() > 0 by {
                if i < r.len() {
                    assert(r.push(trim(fields.last()))[i] == r[i]);
                }
            }
        }
    }
}

/// The merged search results keep at most one result per chunk id.
pub proof fn law_merge_unique_ids(ids: Seq<Option<Seq<char>>>, i: int, j: int)
    requires
        0 <= i < j < ids.len(),
        survives_merge(ids, i),
        survives_merge(ids, j),
        ids[i] is Some,
        ids[i]->0.len() > 0,
    ensures
        ids[i] != ids[j],
{
}

/// Read after write in the entry registry: after a write under an id, the
/// entry under that id is the one written.
pub proof fn law_entry_read_after_write(s: Seq<MemoryEntryView>, e: MemoryEntryView)
    requires
        ids_of(s).no_duplicates(),
    ensures
        entry_for(without_id(s, e.id).push(e), e.id) == Some(e),
{
    lemma_without_id(s, e.id);
    lemma_entry_push(without_id(s, e.id), e, e.id);
}

/// A write or a delete under one id leaves the entries under every other
/// id as they were.
pub proof fn law_entry_others_unchanged(s: Seq<MemoryEntryView>, e: MemoryEntryView, x: Seq<char>)
    requires
        ids_of(s).no_duplicates(),
        x != e.id,
    ensures
        entry_for(without_id(s, e.id), x) == entry_for(s, x),
        entry_for(without_id(s, e.id).push(e), x) == entry_for(s, x),
{
    lemma_without_id(s, e.id);
    lemma_entry_without(s, e.id, x);
    lemma_entry_push(without_id(s, e.id), e, x);
}

/// After a delete, no entry is left under the deleted id.
pub proof fn law_entry_delete(s: Seq<MemoryEntryView>, id: Seq<char>)
    requires
        ids_of(s).no_duplicates(),
    ensures
        entry_for(without_id(s, id), id) is None,
{
    lemma_without_id(s, id);
    ids_of(without_id(s, id)).index_of_first_ensures(id);
}

/// The cold-tier candidates of a search are distinct, none of them was
/// found in the hot tier, and every cold id not found there is among them.
pub proof fn law_cold_candidates_fresh(seen: Seq<Seq<char>>, cold: Seq<Seq<char>>)
    ensures
        fresh_ids(seen, cold).no_duplicates(),
        forall|x: Seq<char>|
            fresh_ids(seen, cold).contains(x) <==> (cold.contains(x) && !seen.contains(x)),
    decreases cold.len(),
{
    if cold.len() > 0 {
        let rest = cold.drop_last();
        let y = cold.last();
        law_cold_candidates_fresh(seen, rest);
        let f = fresh_ids(seen, rest);
        assert forall|x: Seq<char>| cold.contains(x) <==> (rest.contains(x) || x == y) by {
            if cold.contains(x) {
                let a = choose|a: int| 0 <= a < cold.len() && cold[a] == x;
                if a < rest.len() {
                    assert(rest[a] == x);
                }
            }
            if rest.contains(x) {
                let a = choose|a: int| 0 <= a < rest.len() && rest[a] == x;
                assert(cold[a] == x);
            }
            if x == y {
                assert(cold[cold.len() - 1] == x);
            }
        }
        if !(seen.contains(y) || rest.contains(y)) {
            let g = f.push(y);
            assert forall|a: int, b: int| 0 <= a < g.len() && 0 <= b < g.len() && a != b implies g[a] != g[b] by {
                if a == f.len() {
                    assert(f.contains(f[b]));
                } else if b == f.len() {
                    assert(f.contains(f[a]));
                }
            }
            assert forall|x: Seq<char>| g.contains(x) <==> (f.contains(x) || x == y) by {
                if g.contains(x) {
                    let a = choose|a: int| 0 <= a < g.len() && g[a] == x;
                    if a < f.len() {
                        assert(f[a] == x);
                    }
                }
                if f.contains(x) {
                    let a = choose|a: int| 0 <= a < f.len() && f[a] == x;
                    assert(g[a] == x);
                }
                if x == y {
                    assert(g[f.len() as int] == x);
                }
            }
        }
    } else {
        assert(fresh_ids(seen, cold) =~= Seq::<Seq<char>>::empty());
    }
}

/// The size after a write: an index within its capacity grows by one when
/// the key was absent and stays the same when it was present, but never
/// beyond its capacity.
pub proof fn law_kv_write_count(s: Seq<KvSlotView>, capacity: usize, m: KvMetaView)
    requires
        keys_of(s).no_duplicates(),
        s.len() <= capacity,
    ensures
        ({
            let k = make_key_spec(m.model_id, m.prefix_hash);
            let grown = with_front(s, k, m);
            let after = if grown.len() > capacity {
                grown.drop_last()
            } else {
                grown
            };
            let n = s.len() + if meta_for(s, k) is None {
                1int
            } else {
                0int
            };
            after.len() == if n < capacity {
                n
            } else {
                capacity as int
            }
        }),
{
    let k = make_key_spec(m.model_id, m.prefix_hash);
    keys_of(s).index_of_first_ensures(k);
    match keys_of(s).index_of_first(k) {
        Some(i) => {
            assert(without_key(s, k).len() == s.len() - 1);
        },
        None => {
            assert(without_key(s, k) == s);
        },
    }
}

/// The index after a write of `m` into `s` with the given capacity: `m` in
/// front under its key, and the least recently used entry gone when the
/// index grew over its capacity.
pub open spec fn written(s: Seq<KvSlotView>, capacity: usize, m: KvMetaView) -> Seq<KvSlotView> {
    let grown = with_front(s, make_key_spec(m.model_id, m.prefix_hash), m);
    if grown.len() > capacity {
        grown.drop_last()
    } else {
        grown
    }
}

/// A written slab stays readable until its time to live has passed: a
/// lookup of it at any time up to its creation time plus its time to live
/// (at any time, without a time to live) finds it, keeps it and makes it the
/// most recently used; a lookup after that finds it expired and removes it.
/// (`plan_write` stamps a slab without a creation time with a reading of the
/// wall clock in milliseconds, and `lookup` decides at such a reading.)
pub proof fn law_kv_live_until_deadline(
    s: Seq<KvSlotView>,
    capacity: usize,
    m: KvMetaView,
    t: u64,
    after: Seq<KvSlotView>,
    r: KvLookup,
)
    requires
        keys_of(s).no_duplicates(),
        capacity >= 1,
        looked_up(written(s, capacity, m), after, make_key_spec(m.model_id, m.prefix_hash), t, r),
    ensures
        (m.ttl_ms == 0 || t <= m.created_at_ms + m.ttl_ms) ==> {
            &&& r matches KvLookup::Hit(x) && x@ == m
            &&& after.len() == written(s, capacity, m).len()
            &&& after[0] == (make_key_spec(m.model_id, m.prefix_hash), m)
            &&& meta_for(after, make_key_spec(m.model_id, m.prefix_hash)) == Some(m)
        },
        (m.ttl_ms > 0 && t > m.created_at_ms + m.ttl_ms) ==> {
            &&& r matches KvLookup::Expired(x) && x@ == m
            &&& after.len() + 1 == written(s, capacity, m).len()
            &&& meta_for(after, make_key_spec(m.model_id, m.prefix_hash)) is None
        },
{
    let k = make_key_spec(m.model_id, m.prefix_hash);
    let w = written(s, capacity, m);
    law_kv_read_after_write(s, capacity, m);
    lemma_with_front(s, k, m);
    assert(keys_of(w).no_duplicates());
    assert(meta_for(w, k) == Some(m));
    keys_of(w).index_of_first_ensures(k);
    if m.ttl_ms == 0 || t <= m.created_at_ms + m.ttl_ms {
        lemma_without_key(w, k);
        let front = with_front(w, k, m);
        assert(after == front);
        assert(keys_of(front)[0] == k);
        lemma_index_of_first(keys_of(front), k, 0);
        match keys_of(w).index_of_first(k) {
            Some(i) => assert(without_key(w, k).len() == w.len() - 1),
            None => {},
        }
    } else {
        lemma_without_key(w, k);
        keys_of(after).index_of_first_ensures(k);
        match keys_of(w).index_of_first(k) {
            Some(i) => assert(without_key(w, k).len() == w.len() - 1),
            None => {},
        }
    }
}

/// A chunk stays live until its time to live has passed: it is never
/// expired at a time up to its creation time plus its time to live, never
/// at all without a time to live, and once expired it stays expired.
/// (`prepare_chunk` stamps a chunk without a creation time with a reading
/// of the wall clock in milliseconds, and `is_expired` decides at such a
/// reading.)
pub proof fn law_chunk_live_until_deadline(created: u64, ttl: u64, t: u64, later: u64)
    ensures
        (ttl == 0 || t <= created + ttl) ==> !chunk_expired(created, ttl, t),
        (ttl > 0 && t > created + ttl) ==> chunk_expired(created, ttl, t),
        (chunk_expired(created, ttl, t) && t <= later) ==> chunk_expired(created, ttl, later),
{
}

/// A peer marked dead at a reading `marked` of the manager's clock is dead
/// at every reading from `marked` until the window has passed (and right at
/// the mark).
pub proof fn law_marked_peer_dead(m: Map<Seq<char>, u64>, addr: Seq<char>, marked: u64, now: u64)
    requires
        marked <= now,
        now < marked + DEAD_PEER_TIMEOUT_MS,
        now < u64::MAX,
    ensures
        dead_at(m.insert(addr, deadline_after(marked)), addr, now),
{
}

/// Writes for a session owned by another node go to that node again once
/// the window of a dead mark has passed, and are handled here while it
/// lasts. (`route_write` decides at a reading of the manager's clock, the
/// clock whose readings `mark_dead` stamps.)
pub proof fn law_route_after_dead_window(
    c: ClusterManager,
    session_id: Seq<char>,
    m: Map<Seq<char>, u64>,
    marked: u64,
    t: u64,
    r: WriteRoute,
)
    requires
        owner_of(c.router().nodes(), c.router().local(), session_id) != c.router().local(),
        c.deadlines() == m.insert(
            owner_of(c.router().nodes(), c.router().local(), session_id),
            deadline_after(marked),
        ),
        marked + DEAD_PEER_TIMEOUT_MS <= u64::MAX,
        routes_at(c, session_id, t, r),
    ensures
        t >= marked + DEAD_PEER_TIMEOUT_MS ==> (r matches WriteRoute::Forward(a) && a@ == owner_of(
            c.router().nodes(),
            c.router().local(),
            session_id,
        )),
        (marked <= t && t < marked + DEAD_PEER_TIMEOUT_MS) ==> r is Local,
{
}

} // verus!
