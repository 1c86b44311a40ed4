//! Session affinity: which node of the cluster owns a session.
//!
//! The router keeps the node addresses sorted and without repeats, so that
//! every node, given the same set of addresses in any order, computes the
//! same owner for a session: the node at the session id's hash modulo the
//! number of nodes.

use crate::text::{lemma_lex_irreflexive, lemma_lex_total, lemma_lex_transitive, lex_less, lex_lt, views};
use std::hash::BuildHasher;
use vstd::prelude::*;

verus! {

/// The value of the std default hasher (`DefaultHasher` as built by
/// `BuildHasherDefault`, SipHash with fixed keys) for the string `s`.
pub uninterp spec fn default_hash_of(s: Seq<char>) -> u64;

/// Hashes `session_id` with std's default hasher
/// (`BuildHasher::hash_one` of a `BuildHasherDefault<DefaultHasher>`).
/// The result is named, not described: it is `default_hash_of` of the
/// characters of `session_id`. That std's algorithm may change between Rust
/// releases is not stated; within one build it depends on the string alone.
#[verifier::external_body]
fn session_hash(session_id: &str) -> (h: u64)
    ensures
        h == default_hash_of(session_id@),
{
    std::hash::BuildHasherDefault::<std::collections::hash_map::DefaultHasher>::default().hash_one(
        session_id,
    )
}

/// Every address precedes the next one: sorted, and no address twice.
pub open spec fn strictly_sorted(s: Seq<Seq<char>>) -> bool {
    forall|i: int, j: int| 0 <= i < j < s.len() ==> lex_lt(#[trigger] s[i], #[trigger] s[j])
}

/// The node that owns `session_id`: the local address when there are no
/// nodes, else the node at the session's hash modulo the number of nodes.
pub open spec fn owner_of(nodes: Seq<Seq<char>>, local: Seq<char>, session_id: Seq<char>) -> Seq<
    char,
> {
    if nodes.len() == 0 {
        local
    } else {
        nodes[((default_hash_of(session_id) as usize) as int) % (nodes.len() as int)]
    }
}

/// `s` without the occurrences of `x`, in order.
pub open spec fn others(s: Seq<Seq<char>>, x: Seq<char>) -> Seq<Seq<char>>
    decreases s.len(),
{
    if s.len() == 0 {
        s
    } else {
        let r = others(s.drop_last(), x);
        if s.last() == x {
            r
        } else {
            r.push(s.last())
        }
    }
}

/// Consistent-hash session router over a fixed set of node addresses.
pub struct SessionRouter {
    nodes: Vec<String>,
    local_addr: String,
}

/// A strictly sorted sequence holds each address once.
pub proof fn lemma_strictly_sorted_no_duplicates(s: Seq<Seq<char>>)
    requires
        strictly_sorted(s),
    ensures
        s.no_duplicates(),
{
    assert forall|i: int, j: int| 0 <= i < s.len() && 0 <= j < s.len() && i != j implies s[i]
        != s[j] by {
        if i < j {
            assert(lex_lt(s[i], s[j]));
            lemma_lex_irreflexive(s[i]);
        } else {
            assert(lex_lt(s[j], s[i]));
            lemma_lex_irreflexive(s[j]);
        }
    }
}

/// Two strictly sorted sequences with the same addresses are equal.
pub proof fn lemma_strictly_sorted_unique(s: Seq<Seq<char>>, t: Seq<Seq<char>>)
    requires
        strictly_sorted(s),
        strictly_sorted(t),
        s.to_set() == t.to_set(),
    ensures
        s == t,
    decreases s.len(),
{
    if s.len() == 0 {
        if t.len() > 0 {
            assert(t.to_set().contains(t[0]));
        }
        assert(s =~= t);
    } else {
        assert(s.to_set().contains(s[0]));
        assert(t.to_set().contains(s[0]));
        assert(t.len() > 0);
        assert(t.to_set().contains(t[0]));
        assert(s.to_set().contains(t[0]));
        if s[0] != t[0] {
            let j = choose|j: int| 0 <= j < t.len() && t[j] == s[0];
            let k = choose|k: int| 0 <= k < s.len() && s[k] == t[0];
            assert(j > 0);
            assert(k > 0);
            assert(lex_lt(t[0], t[j]));
            assert(lex_lt(s[0], s[k]));
            lemma_lex_total(s[0], t[0]);
        }
        let s1 = s.drop_first();
        let t1 = t.drop_first();
        assert forall|x: Seq<char>| s1.to_set().contains(x) <==> t1.to_set().contains(x) by {
            if s1.to_set().contains(x) {
                let a = choose|a: int| 0 <= a < s1.len() && s1[a] == x;
                assert(lex_lt(s[0], s[a + 1]));
                assert(s.to_set().contains(x));
                let b = choose|b: int| 0 <= b < t.len() && t[b] == x;
                if b == 0 {
                    lemma_lex_irreflexive(x);
                }
                assert(t1[b - 1] == x);
            }
            if t1.to_set().contains(x) {
                let a = choose|a: int| 0 <= a < t1.len() && t1[a] == x;
                assert(lex_lt(t[0], t[a + 1]));
                assert(t.to_set().contains(x));
                let b = choose|b: int| 0 <= b < s.len() && s[b] == x;
                if b == 0 {
                    lemma_lex_irreflexive(x);
                }
                assert(s1[b - 1] == x);
            }
        }
        assert(s1.to_set() =~= t1.to_set());
        lemma_strictly_sorted_unique(s1, t1);
        assert(s =~= seq![s[0]] + s1);
        assert(t =~= seq![t[0]] + t1);
    }
}

/// Taking one address out of a sequence that holds it once shortens it by
/// one; taking out an absent one changes nothing.
pub proof fn lemma_others_len(s: Seq<Seq<char>>, x: Seq<char>)
    requires
        s.no_duplicates(),
    ensures
        others(s, x).len() == if s.contains(x) {
            s.len() - 1
        } else {
            s.len() as int
        },
        !others(s, x).contains(x),
    decreases s.len(),
{
    if s.len() > 0 {
        let d = s.drop_last();
        assert(d.no_duplicates());
        lemma_others_len(d, x);
        if s.last() == x {
            assert(!d.contains(x)) by {
                if d.contains(x) {
                    let a = choose|a: int| 0 <= a < d.len() && d[a] == x;
                    assert(s[a] == s[s.len() - 1]);
                }
            }
            assert(s.contains(x));
        } else {
            assert(s.contains(x) <==> d.contains(x)) by {
                if s.contains(x) {
                    let a = choose|a: int| 0 <= a < s.len() && s[a] == x;
                    assert(d[a] == x);
                }
                if d.contains(x) {
                    let a = choose|a: int| 0 <= a < d.len() && d[a] == x;
                    assert(s[a] == x);
                }
            }
            let r = others(d, x);
            assert(!r.push(s.last()).contains(x)) by {
                if r.push(s.last()).contains(x) {
                    let a = choose|a: int| 0 <= a < r.push(s.last()).len() && r.push(s.last())[a] == x;
                    if a < r.len() {
                        assert(r[a] == x);
                    }
                }
            }
        }
    }
}

impl SessionRouter {
    /// The node addresses, sorted, each once.
    pub closed spec fn nodes(&self) -> Seq<Seq<char>> {
        views(self.nodes@)
    }

    /// The local node's address.
    pub closed spec fn local(&self) -> Seq<char> {
        self.local_addr@
    }

    /// A router over `nodes` (sorted, repeats dropped) for the node at
    /// `local_addr`.
    pub fn new(nodes: Vec<String>, local_addr: String) -> (r: Self)
        ensures
            strictly_sorted(r.nodes()),
            r.nodes().to_set() == views(nodes@).to_set(),
            r.local() == local_addr@,
    {
        let mut sorted: Vec<String> = Vec::new();
        let mut i: usize = 0;
        while i < nodes.len()
            invariant
                i <= nodes.len(),
                strictly_sorted(views(sorted@)),
                views(sorted@).to_set() == views(nodes@.subrange(0, i as int)).to_set(),
            decreases nodes.len() - i,
        {
            let x = &nodes[i];
            let ghost xv = x@;
            let ghost pre = views(sorted@);
            let mut p: usize = 0;
            while p < sorted.len() && lex_less(sorted[p].as_str(), x.as_str())
                invariant
                    p <= sorted@.len(),
                    pre == views(sorted@),
                    xv == x@,
                    forall|a: int| 0 <= a < p ==> lex_lt(#[trigger] pre[a], xv),
                decreases sorted@.len() - p,
            {
                p = p + 1;
            }
            assert(views(nodes@.subrange(0, i + 1 as int)) =~= views(nodes@.subrange(0, i as int)).push(xv));
            proof {
                views(nodes@.subrange(0, i as int)).lemma_push_to_set_commute(xv);
            }
            if p < sorted.len() && sorted[p] == *x {
                assert(views(sorted@).to_set() =~= views(nodes@.subrange(0, i + 1 as int)).to_set()) by {
                    assert(pre[p as int] == xv);
                    assert(pre.to_set().contains(xv));
                    assert(pre.to_set().insert(xv) =~= pre.to_set());
                }
            } else {
                proof {
                    if p < pre.len() {
                        lemma_lex_total(pre[p as int], xv);
                        assert(lex_lt(xv, pre[p as int]));
                    }
                }
                sorted.insert(p, x.clone());
                proof {
                    let post = views(sorted@);
                    assert(post =~= pre.insert(p as int, xv));
                    pre.insert_ensures(p as int, xv);
                    assert forall|a: int, b: int| 0 <= a < b < post.len() implies lex_lt(
                        #[trigger] post[a],
                        #[trigger] post[b],
                    ) by {
                        if b < p {
                            assert(lex_lt(pre[a], pre[b]));
                        } else if b == p {
                            assert(lex_lt(pre[a], xv));
                        } else if a < p {
                            assert(post[b] == pre[b - 1]);
                            assert(lex_lt(pre[a], xv));
                            if b - 1 > p {
                                assert(lex_lt(pre[p as int], pre[b - 1]));
                                lemma_lex_transitive(xv, pre[p as int], pre[b - 1]);
                            }
                            lemma_lex_transitive(pre[a], xv, pre[b - 1]);
                        } else if a == p {
                            assert(post[b] == pre[b - 1]);
                            if b - 1 > p {
                                assert(lex_lt(pre[p as int], pre[b - 1]));
                                lemma_lex_transitive(xv, pre[p as int], pre[b - 1]);
                            }
                        } else {
                            assert(post[a] == pre[a - 1]);
                            assert(post[b] == pre[b - 1]);
                            assert(lex_lt(pre[a - 1], pre[b - 1]));
                        }
                    }
                    assert forall|y: Seq<char>| post.to_set().contains(y) <==> pre.to_set().insert(
                        xv,
                    ).contains(y) by {
                        if post.to_set().contains(y) {
                            let a = choose|a: int| 0 <= a < post.len() && post[a] == y;
                            if a < p {
                                assert(pre[a] == y);
                            } else if a > p {
                                assert(pre[a - 1] == y);
                            }
                        }
                        if pre.to_set().contains(y) {
                            let a = choose|a: int| 0 <= a < pre.len() && pre[a] == y;
                            if a < p {
                                assert(post[a] == y);
                            } else {
                                assert(post[a + 1] == y);
                            }
                        }
                        if y == xv {
                            assert(post[p as int] == y);
                        }
                    }
                    assert(post.to_set() =~= pre.to_set().insert(xv));
                    assert(post.to_set() =~= views(nodes@.subrange(0, i + 1 as int)).to_set());
                }
            }
            i = i + 1;
        }
        assert(nodes@.subrange(0, nodes@.len() as int) =~= nodes@);
        SessionRouter { nodes: sorted, local_addr }
    }

    /// The address of the node that owns `session_id`.
    pub fn node_for_session(&self, session_id: &str) -> (r: &str)
        ensures
            r@ == owner_of(self.nodes(), self.local(), session_id@),
    {
        if self.nodes.len() == 0 {
            return self.local_addr.as_str();
        }
        let h = session_hash(session_id);
        let idx = (h as usize) % self.nodes.len();
        self.nodes[idx].as_str()
    }

    /// Whether this node owns `session_id`.
    pub fn is_local(&self, session_id: &str) -> (r: bool)
        ensures
            r == (owner_of(self.nodes(), self.local(), session_id@) == self.local()),
    {
        if self.nodes.len() == 0 {
            return true;
        }
        let h = session_hash(session_id);
        let idx = (h as usize) % self.nodes.len();
        self.nodes[idx] == self.local_addr
    }

    /// The number of nodes other than this one (the node count less one).
    pub fn peer_count(&self) -> (r: usize)
        ensures
            r == if self.nodes().len() > 0 {
                self.nodes().len() - 1
            } else {
                0
            },
    {
        self.nodes.len().saturating_sub(1)
    }

    /// The addresses of the nodes other than this one, in order.
    pub fn peer_addrs(&self) -> (r: Vec<String>)
        ensures
            views(r@) == others(self.nodes(), self.local()),
    {
        let mut r: Vec<String> = Vec::new();
        let mut i: usize = 0;
        while i < self.nodes.len()
            invariant
                i <= self.nodes@.len(),
                views(r@) == others(self.nodes().subrange(0, i as int), self.local()),
            decreases self.nodes@.len() - i,
        {
            assert(self.nodes().subrange(0, i + 1 as int).drop_last() =~= self.nodes().subrange(
                0,
                i as int,
            ));
            if self.nodes[i] != self.local_addr {
                let ghost pre = r@;
                r.push(self.nodes[i].clone());
                assert(views(r@) =~= views(pre).push(self.nodes()[i as int]));
            }
            i = i + 1;
        }
        assert(self.nodes().subrange(0, i as int) =~= self.nodes());
        r
    }
}

} // verus!
