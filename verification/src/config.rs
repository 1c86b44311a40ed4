//! The daemon's configuration, and the reading of its peer list.

use crate::text::{char_vec, push_char};
use vstd::prelude::*;

verus! {

/// The daemon's settings.
#[derive(Debug, Clone)]
pub struct Config {
    /// Bind address for the gRPC server.
    pub bind_address: String,
    /// Data directory for the persistent chunk store.
    pub data_dir: String,
    /// Maximum memory chunks to store before LRU eviction triggers.
    pub max_entries: usize,
    /// Vector dimension size.
    pub vector_dim: usize,
    /// Maximum vectors to hold in the in-memory hot tier.
    pub hot_tier_max: usize,
    /// Path for the signal JSONL output file.
    pub signal_output_path: String,
    /// Directory for KV cache prefix-sharing files.
    pub kv_cache_dir: String,
    /// Maximum number of KV cache entries before LRU eviction.
    pub kv_cache_max_entries: usize,
    /// Stable node ID for cluster routing.
    pub node_id: Option<String>,
    /// Comma-separated list of peer gRPC addresses.
    pub peers: String,
    /// Verbose logging.
    pub verbose: bool,
}

/// The characters with Unicode's White_Space property.
pub open spec fn is_white_space(c: char) -> bool {
    ('\u{9}' <= c && c <= '\u{d}') || c == ' ' || c == '\u{85}' || c == '\u{a0}' || c
        == '\u{1680}' || ('\u{2000}' <= c && c <= '\u{200a}') || c == '\u{2028}' || c
        == '\u{2029}' || c == '\u{202f}' || c == '\u{205f}' || c == '\u{3000}'
}

/// Whether `c` is white space: has Unicode's White_Space property, as
/// `char::is_whitespace` is documented to decide.
fn char_is_whitespace(c: char) -> (r: bool)
    ensures
        r == is_white_space(c),
{
    ('\u{9}' <= c && c <= '\u{d}') || c == ' ' || c == '\u{85}' || c == '\u{a0}' || c
        == '\u{1680}' || ('\u{2000}' <= c && c <= '\u{200a}') || c == '\u{2028}' || c
        == '\u{2029}' || c == '\u{202f}' || c == '\u{205f}' || c == '\u{3000}'
}

/// `s` without leading white space.
pub open spec fn trim_start(s: Seq<char>) -> Seq<char>
    decreases s.len(),
{
    if s.len() > 0 && is_white_space(s[0]) {
        trim_start(s.drop_first())
    } else {
        s
    }
}

/// `s` without trailing white space.
pub open spec fn trim_end(s: Seq<char>) -> Seq<char>
    decreases s.len(),
{
    if s.len() > 0 && is_white_space(s.last()) {
        trim_end(s.drop_last())
    } else {
        s
    }
}

/// `s` without leading and trailing white space.
pub open spec fn trim(s: Seq<char>) -> Seq<char> {
    trim_end(trim_start(s))
}

/// The comma-separated fields of `s` (one empty field for an empty `s`).
pub open spec fn split_commas(s: Seq<char>) -> Seq<Seq<char>>
    decreases s.len(),
{
    if s.len() == 0 {
        seq![Seq::<char>::empty()]
    } else {
        let r = split_commas(s.drop_last());
        if s.last() == ',' {
            r.push(Seq::<char>::empty())
        } else {
            r.update(r.len() - 1, r.last().push(s.last()))
        }
    }
}

/// The peer addresses of fields: each trimmed, the empty ones dropped.
pub open spec fn peer_list(fields: Seq<Seq<char>>) -> Seq<Seq<char>>
    decreases fields.len(),
{
    if fields.len() == 0 {
        Seq::empty()
    } else {
        let r = peer_list(fields.drop_last());
        if trim(fields.last()).len() == 0 {
            r
        } else {
            r.push(trim(fields.last()))
        }
    }
}

proof fn lemma_split_commas_nonempty(s: Seq<char>)
    ensures
        split_commas(s).len() > 0,
    decreases s.len(),
{
    if s.len() > 0 {
        lemma_split_commas_nonempty(s.drop_last());
    }
}

proof fn lemma_trim_start_sub(s: Seq<char>, i: int)
    requires
        0 <= i <= s.len(),
        forall|j: int| 0 <= j < i ==> is_white_space(#[trigger] s[j]),
    ensures
        trim_start(s) == trim_start(s.subrange(i, s.len() as int)),
    decreases i,
{
    if i > 0 {
        assert(s.drop_first().subrange(i - 1, s.drop_first().len() as int) =~= s.subrange(
            i,
            s.len() as int,
        ));
        assert forall|j: int| 0 <= j < i - 1 implies is_white_space(#[trigger] s.drop_first()[j]) by {
            assert(s.drop_first()[j] == s[j + 1]);
        }
        lemma_trim_start_sub(s.drop_first(), i - 1);
    } else {
        assert(s.subrange(0, s.len() as int) =~= s);
    }
}

proof fn lemma_trim_end_sub(s: Seq<char>, e: int)
    requires
        0 <= e <= s.len(),
        forall|j: int| e <= j < s.len() ==> is_white_space(#[trigger] s[j]),
    ensures
        trim_end(s) == trim_end(s.subrange(0, e)),
    decreases s.len() - e,
{
    if e < s.len() {
        assert(s.drop_last().subrange(0, e) =~= s.subrange(0, e));
        lemma_trim_end_sub(s.drop_last(), e);
    } else {
        assert(s.subrange(0, e) =~= s);
    }
}

/// The characters of `v` between `lo` and `hi` as a string.
fn string_of(v: &Vec<char>, lo: usize, hi: usize) -> (r: String)
    requires
        lo <= hi <= v@.len(),
    ensures
        r@ == v@.subrange(lo as int, hi as int),
{
    let mut r = String::new();
    let mut i = lo;
    while i < hi
        invariant
            lo <= i <= hi,
            hi <= v@.len(),
            r@ == v@.subrange(lo as int, i as int),
        decreases hi - i,
    {
        push_char(&mut r, v[i]);
        assert(r@ =~= v@.subrange(lo as int, i + 1 as int));
        i = i + 1;
    }
    r
}

/// `field` trimmed of white space at both ends.
fn trim_field(field: &Vec<char>) -> (r: String)
    ensures
        r@ == trim(field@),
{
    let n = field.len();
    let mut lo: usize = 0;
    while lo < n && char_is_whitespace(field[lo])
        invariant
            n == field@.len(),
            lo <= n,
            forall|j: int| 0 <= j < lo ==> is_white_space(#[trigger] field@[j]),
        decreases n - lo,
    {
        lo = lo + 1;
    }
    proof {
        lemma_trim_start_sub(field@, lo as int);
    }
    let ghost rest = field@.subrange(lo as int, n as int);
    assert(trim_start(rest) == rest) by {
        if rest.len() > 0 {
            assert(rest[0] == field@[lo as int]);
        }
    }
    let mut hi: usize = n;
    while hi > lo && char_is_whitespace(field[hi - 1])
        invariant
            n == field@.len(),
            lo <= hi <= n,
            rest == field@.subrange(lo as int, n as int),
            forall|j: int| hi <= j < n ==> is_white_space(#[trigger] field@[j]),
        decreases hi - lo,
    {
        hi = hi - 1;
    }
    proof {
        assert forall|j: int| hi - lo <= j < rest.len() implies is_white_space(#[trigger] rest[j]) by {
            assert(rest[j] == field@[j + lo]);
        }
        lemma_trim_end_sub(rest, hi - lo);
        let core = rest.subrange(0, hi - lo);
        assert(core =~= field@.subrange(lo as int, hi as int));
        assert(trim_end(core) == core) by {
            if core.len() > 0 {
                assert(core.last() == field@[hi - 1]);
            }
        }
    }
    string_of(field, lo, hi)
}

/// The peer addresses in a comma-separated list: each field trimmed of
/// white space, the empty ones dropped.
pub fn parse_peers(peers: &str) -> (r: Vec<String>)
    ensures
        crate::text::views(r@) == peer_list(split_commas(peers@)),
{
    let chars = char_vec(peers);
    let mut r: Vec<String> = Vec::new();
    let mut field: Vec<char> = Vec::new();
    let mut i: usize = 0;
    while i < chars.len()
        invariant
            chars@ == peers@,
            i <= chars@.len(),
            split_commas(peers@.subrange(0, i as int)).len() > 0,
            field@ == split_commas(peers@.subrange(0, i as int)).last(),
            crate::text::views(r@) == peer_list(
                split_commas(peers@.subrange(0, i as int)).drop_last(),
            ),
        decreases chars@.len() - i,
    {
        let ghost pre = peers@.subrange(0, i as int);
        let ghost next = peers@.subrange(0, i + 1 as int);
        assert(next.drop_last() =~= pre);
        assert(next.last() == chars@[i as int]);
        let c = chars[i];
        if c == ',' {
            let t = trim_field(&field);
            assert(split_commas(next) == split_commas(pre).push(Seq::<char>::empty()));
            assert(split_commas(next).drop_last() =~= split_commas(pre));
            assert(split_commas(pre) =~= split_commas(pre).drop_last().push(split_commas(pre).last()));
            if t.as_str().is_empty() {
            } else {
                let ghost before = r@;
                r.push(t);
                assert(crate::text::views(r@) =~= crate::text::views(before).push(trim(field@)));
            }
            field = Vec::new();
            assert(field@ =~= split_commas(next).last());
        } else {
            field.push(c);
            assert(split_commas(next).drop_last() =~= split_commas(pre).drop_last());
        }
        i = i + 1;
    }
    assert(peers@.subrange(0, i as int) =~= peers@);
    let ghost all = split_commas(peers@);
    let t = trim_field(&field);
    assert(all =~= all.drop_last().push(all.last()));
    if !t.as_str().is_empty() {
        let ghost before = r@;
        r.push(t);
        assert(crate::text::views(r@) =~= crate::text::views(before).push(trim(field@)));
    }
    r
}

} // verus!
