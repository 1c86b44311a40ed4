//! Decisions of the chunk registry that do not touch its storage: the
//! identity and creation time a written chunk receives, and when a chunk
//! has outlived its time to live.

use crate::pb::MemoryChunk;
use crate::signal::{now_ms, wall_clock_ms};
use crate::text::{contains_str, decimal, decimal_string, push_char, views};
use vstd::prelude::*;

verus! {

/// A lowercase hexadecimal digit.
pub open spec fn is_lower_hex(c: char) -> bool {
    ('0' <= c && c <= '9') || ('a' <= c && c <= 'f')
}

/// The hyphenated text of a random (version 4, RFC 4122 variant) UUID:
/// 36 characters, hyphens at positions 8, 13, 18 and 23, the version digit
/// `4` at position 14, the variant digit `8`, `9`, `a` or `b` at position
/// 19, and lowercase hexadecimal digits everywhere else.
pub open spec fn is_v4_uuid_text(s: Seq<char>) -> bool {
    &&& s.len() == 36
    &&& s[8] == '-' && s[13] == '-' && s[18] == '-' && s[23] == '-'
    &&& s[14] == '4'
    &&& (s[19] == '8' || s[19] == '9' || s[19] == 'a' || s[19] == 'b')
    &&& forall|i: int|
        0 <= i < 36 && i != 8 && i != 13 && i != 18 && i != 23 ==> is_lower_hex(#[trigger] s[i])
}

/// A fresh random UUID in its hyphenated text form
/// (`Uuid::new_v4().to_string()`). The `uuid` crate's `new_v4` masks random
/// bits so that the version nibble is 4 and the variant bits are `10`, and
/// its `Display` writes the lowercase hyphenated form. Which UUID comes is
/// not promised: it is random.
#[verifier::external_body]
pub(crate) fn new_uuid_string() -> (s: String)
    ensures
        is_v4_uuid_text(s@),
{
    uuid::Uuid::new_v4().to_string()
}

/// Whether `s` is the text of a UUID drawn from the generator: a value that
/// a call of `new_uuid_string` gave.
pub closed spec fn drawn_uuid(s: Seq<char>) -> bool {
    exists|x: String| call_ensures(new_uuid_string, (), x) && #[trigger] x@ == s
}

/// Draws a fresh UUID from the generator.
pub(crate) fn draw_uuid() -> (s: String)
    ensures
        drawn_uuid(s@),
        is_v4_uuid_text(s@),
{
    new_uuid_string()
}

/// A drawn UUID has the text of a random version 4 UUID.
pub proof fn law_drawn_uuid_is_v4(s: Seq<char>)
    requires
        drawn_uuid(s),
    ensures
        is_v4_uuid_text(s),
{
    let x = choose|x: String| call_ensures(new_uuid_string, (), x) && #[trigger] x@ == s;
}

/// A chunk with a time to live has expired once its creation time plus its
/// time to live lies before `now`.
pub open spec fn chunk_expired(created_at_ms: u64, ttl_ms: u64, now: u64) -> bool {
    ttl_ms > 0 && created_at_ms + ttl_ms < now
}

/// Whether `chunk` has expired at time `now_ms`.
pub fn is_expired_at(chunk: &MemoryChunk, now_ms: u64) -> (r: bool)
    ensures
        r == chunk_expired(chunk.created_at_ms, chunk.ttl_ms, now_ms),
{
    chunk.ttl_ms > 0 && (chunk.created_at_ms as u128) + (chunk.ttl_ms as u128) < (now_ms as u128)
}

/// Whether `chunk` has expired now.
pub fn is_expired(chunk: &MemoryChunk) -> (r: bool)
    ensures
        exists|t: u64| wall_clock_ms(t) && r == chunk_expired(chunk.created_at_ms, chunk.ttl_ms, t),
{
    let now = now_ms();
    assert(wall_clock_ms(now));
    let r = is_expired_at(chunk, now);
    assert(r == chunk_expired(chunk.created_at_ms, chunk.ttl_ms, now));
    r
}

/// The chunk as the registry stores it, given a fresh id and the time
/// `now`: a chunk without an id receives `fresh_id`, a chunk without a
/// creation time receives `now`; everything else is kept.
pub fn prepare_chunk_at(chunk: MemoryChunk, fresh_id: String, now: u64) -> (r: MemoryChunk)
    ensures
        r.id@ == if chunk.id@.len() == 0 {
            fresh_id@
        } else {
            chunk.id@
        },
        r.created_at_ms == if chunk.created_at_ms == 0 {
            now
        } else {
            chunk.created_at_ms
        },
        r.embedding@ == chunk.embedding@,
        r.payload@ == chunk.payload@,
        r.session_id@ == chunk.session_id@,
        r.ttl_ms == chunk.ttl_ms,
        r.meta == chunk.meta,
{
    let mut chunk = chunk;
    if chunk.id.as_str().is_empty() {
        chunk.id = fresh_id;
    }
    if chunk.created_at_ms == 0 {
        chunk.created_at_ms = now;
    }
    chunk
}

/// The chunk as the registry stores it: a chunk without an id receives a
/// fresh UUID, a chunk without a creation time receives the current time
/// (as [`prepare_chunk_at`] with those two); everything else is kept.
pub fn prepare_chunk(chunk: MemoryChunk) -> (r: MemoryChunk)
    ensures
        chunk.id@.len() > 0 ==> r.id@ == chunk.id@,
        chunk.id@.len() == 0 ==> is_v4_uuid_text(r.id@),
        chunk.id@.len() == 0 ==> drawn_uuid(r.id@),
        chunk.created_at_ms != 0 ==> r.created_at_ms == chunk.created_at_ms,
        chunk.created_at_ms == 0 ==> wall_clock_ms(r.created_at_ms),
        r.embedding@ == chunk.embedding@,
        r.payload@ == chunk.payload@,
        r.session_id@ == chunk.session_id@,
        r.ttl_ms == chunk.ttl_ms,
        r.meta == chunk.meta,
{
    let fresh_id = if chunk.id.as_str().is_empty() {
        new_uuid_string()
    } else {
        chunk.id.clone()
    };
    let now = if chunk.created_at_ms == 0 {
        now_ms()
    } else {
        chunk.created_at_ms
    };
    prepare_chunk_at(chunk, fresh_id, now)
}

/// How many ids a search asks of the cold tier once the hot tier has
/// found `found` of the `top_k` wanted: none when the hot tier found enough,
/// else three for each one missing.
pub fn cold_search_limit(top_k: usize, found: usize) -> (r: Option<usize>)
    requires
        found >= top_k || (top_k - found) * 3 <= usize::MAX,
    ensures
        found >= top_k ==> r is None,
        found < top_k ==> r == Some(((top_k - found) * 3) as usize),
{
    if found >= top_k {
        None
    } else {
        Some((top_k - found) * 3)
    }
}

/// The ids of `cold` that a search adds to its candidates: those not among
/// `seen` and not earlier in `cold`, in order.
pub open spec fn fresh_ids(seen: Seq<Seq<char>>, cold: Seq<Seq<char>>) -> Seq<Seq<char>>
    decreases cold.len(),
{
    if cold.len() == 0 {
        Seq::empty()
    } else {
        let before = fresh_ids(seen, cold.drop_last());
        if seen.contains(cold.last()) || cold.drop_last().contains(cold.last()) {
            before
        } else {
            before.push(cold.last())
        }
    }
}

/// The cold-tier ids that join the candidates found in the hot tier
/// (`seen`): each id not seen before, once, in the order found.
pub fn cold_candidates(seen: &Vec<String>, cold: &Vec<String>) -> (r: Vec<String>)
    ensures
        views(r@) == fresh_ids(views(seen@), views(cold@)),
{
    let ghost s = views(seen@);
    let ghost c = views(cold@);
    let mut known: Vec<String> = seen.clone();
    let mut r: Vec<String> = Vec::new();
    let mut i: usize = 0;
    proof {
        assert(views(known@) =~= s);
        assert(c.subrange(0, 0) =~= Seq::<Seq<char>>::empty());
        assert(s + c.subrange(0, 0) =~= s);
    }
    while i < cold.len()
        invariant
            s == views(seen@),
            c == views(cold@),
            i <= cold@.len(),
            views(known@) == s + c.subrange(0, i as int),
            views(r@) == fresh_ids(s, c.subrange(0, i as int)),
        decreases cold@.len() - i,
    {
        let ghost pre = c.subrange(0, i as int);
        let ghost next = c.subrange(0, i + 1 as int);
        assert(next.drop_last() =~= pre);
        assert(next.last() == c[i as int]);
        let id = &cold[i];
        let already = contains_str(&known, id.as_str());
        proof {
            let x = c[i as int];
            assert(x == id@);
            if (s + pre).contains(x) {
                let a = choose|a: int| 0 <= a < (s + pre).len() && (s + pre)[a] == x;
                if a < s.len() {
                    assert(s[a] == x);
                } else {
                    assert(pre[a - s.len()] == x);
                }
            }
            if s.contains(x) {
                let a = choose|a: int| 0 <= a < s.len() && s[a] == x;
                assert((s + pre)[a] == x);
            }
            if pre.contains(x) {
                let a = choose|a: int| 0 <= a < pre.len() && pre[a] == x;
                assert((s + pre)[s.len() + a] == x);
            }
        }
        if !already {
            let ghost before = views(r@);
            r.push(id.clone());
            assert(views(r@) =~= before.push(id@));
        }
        let ghost kb = views(known@);
        known.push(id.clone());
        assert(views(known@) =~= kb.push(id@));
        assert(s + next =~= (s + pre).push(c[i as int]));
        i = i + 1;
    }
    assert(c.subrange(0, i as int) =~= c);
    r
}

/// How many dimensions of an embedding become search terms.
pub const EMBEDDING_TOP_K: usize = 20;

/// The search term of one embedding dimension: `ep{i}` where the component
/// is non-negative, `en{i}` where it is negative.
pub open spec fn term_of(dim: usize, non_negative: bool) -> Seq<char> {
    seq!['e', if non_negative { 'p' } else { 'n' }] + decimal(dim as nat)
}

/// The terms of the ranked dimensions, joined by single spaces.
pub open spec fn joined_terms(ranked: Seq<(usize, bool)>) -> Seq<char>
    decreases ranked.len(),
{
    if ranked.len() == 0 {
        Seq::empty()
    } else if ranked.len() == 1 {
        term_of(ranked[0].0, ranked[0].1)
    } else {
        joined_terms(ranked.drop_last()) + seq![' '] + term_of(ranked.last().0, ranked.last().1)
    }
}

/// The search terms of an embedding whose dimensions come ranked by
/// magnitude, largest first, each with whether its component is
/// non-negative: the terms of the first `EMBEDDING_TOP_K` of them.
pub fn embedding_terms(ranked: &Vec<(usize, bool)>) -> (s: String)
    ensures
        s@ == joined_terms(
            ranked@.take(
                if ranked@.len() < EMBEDDING_TOP_K {
                    ranked@.len() as int
                } else {
                    EMBEDDING_TOP_K as int
                },
            ),
        ),
{
    let n = if ranked.len() < EMBEDDING_TOP_K {
        ranked.len()
    } else {
        EMBEDDING_TOP_K
    };
    let mut s = String::new();
    let mut i: usize = 0;
    assert(ranked@.take(0) =~= Seq::<(usize, bool)>::empty());
    while i < n
        invariant
            n <= ranked@.len(),
            i <= n,
            s@ == joined_terms(ranked@.take(i as int)),
        decreases n - i,
    {
        let (dim, non_negative) = ranked[i];
        assert(ranked@.take(i + 1 as int).drop_last() =~= ranked@.take(i as int));
        assert(ranked@.take(i + 1 as int).last() == (dim, non_negative));
        if i > 0 {
            push_char(&mut s, ' ');
        }
        push_char(&mut s, 'e');
        push_char(&mut s, if non_negative { 'p' } else { 'n' });
        let d = decimal_string(dim);
        s.append(d.as_str());
        proof {
            if i == 0 {
                assert(s@ =~= term_of(dim, non_negative));
            } else {
                assert(s@ =~= joined_terms(ranked@.take(i as int)) + seq![' '] + term_of(dim, non_negative));
            }
        }
        i = i + 1;
    }
    s
}

} // verus!
