//! Cluster membership as one node sees it: who owns a session, who the
//! peers are, and which peers are held dead after a failed call.
//!
//! A peer whose call failed is held dead for a fixed window; while it is
//! dead, fan-out searches skip it and forwarded writes are handled locally.
//! The mark expires by itself. Time is read on a monotonic clock started
//! with the manager, in milliseconds.

use crate::router::{others, owner_of, strictly_sorted, SessionRouter};
use crate::table::StrTable;
use crate::text::views;
use vstd::prelude::*;

verus! {

/// `std::time::Instant`, the start of a manager's clock.
#[verifier::external_type_specification]
#[verifier::external_body]
pub struct ExInstant(std::time::Instant);

/// How long a failed peer is held dead, in milliseconds.
pub const DEAD_PEER_TIMEOUT_MS: u64 = 30000;

/// The current instant of the monotonic clock (`Instant::now`). Nothing is
/// promised of it: it is the time.
#[verifier::external_body]
fn instant_now() -> std::time::Instant {
    std::time::Instant::now()
}

/// Milliseconds elapsed since `start` (`Instant::elapsed`). Nothing is
/// promised of the value: it is the time.
#[verifier::external_body]
fn elapsed_ms(start: &std::time::Instant) -> u64 {
    start.elapsed().as_millis() as u64
}

/// Whether `t` is a reading of a clock started at `start`: milliseconds
/// since `start`, as a call of `elapsed_ms` on it gave.
pub closed spec fn instant_reading(start: std::time::Instant, t: u64) -> bool {
    call_ensures(elapsed_ms, (&start,), t)
}

/// Whether `addr` is held dead at time `now` by the deadlines `m`.
pub open spec fn dead_at(m: Map<Seq<char>, u64>, addr: Seq<char>, now: u64) -> bool {
    m.contains_key(addr) && now < m[addr]
}

/// The deadline of a peer marked dead at `now`.
pub open spec fn deadline_after(now: u64) -> u64 {
    if now + DEAD_PEER_TIMEOUT_MS > u64::MAX {
        u64::MAX
    } else {
        (now + DEAD_PEER_TIMEOUT_MS) as u64
    }
}

/// The test that keeps the peers that are alive at `now`.
pub open spec fn alive_at(m: Map<Seq<char>, u64>, now: u64) -> spec_fn(Seq<char>) -> bool {
    |a: Seq<char>| !dead_at(m, a, now)
}

/// The test that keeps the peers that are dead at `now`.
pub open spec fn held_dead_at(m: Map<Seq<char>, u64>, now: u64) -> spec_fn(Seq<char>) -> bool {
    |a: Seq<char>| dead_at(m, a, now)
}

/// Node-local view of the cluster.
pub struct ClusterManager {
    pub local_id: String,
    router: SessionRouter,
    dead_until: StrTable,
    started: std::time::Instant,
}

impl ClusterManager {
    /// The session router over all nodes, this one included.
    pub closed spec fn router(&self) -> SessionRouter {
        self.router
    }

    /// This node's id.
    pub closed spec fn id(&self) -> Seq<char> {
        self.local_id@
    }

    /// The deadlines of the peers held dead, in milliseconds on this
    /// manager's clock.
    pub closed spec fn deadlines(&self) -> Map<Seq<char>, u64> {
        self.dead_until.view()
    }

    /// Each address has at most one deadline.
    pub closed spec fn wf(&self) -> bool {
        self.dead_until.wf()
    }

    /// A manager for the node `local_id` at `local_addr`, with the given
    /// peers (the local address is added when it is not among them), and no
    /// peer held dead.
    pub fn new(local_id: String, local_addr: String, peer_addrs: Vec<String>) -> (c: Self)
        ensures
            c.wf(),
            c.id() == local_id@,
            strictly_sorted(c.router().nodes()),
            c.router().nodes().to_set() == views(peer_addrs@).to_set().insert(local_addr@),
            c.router().local() == local_addr@,
            c.deadlines() == Map::<Seq<char>, u64>::empty(),
    {
        let mut all_nodes: Vec<String> = Vec::new();
        let mut present = false;
        let mut i: usize = 0;
        while i < peer_addrs.len()
            invariant
                i <= peer_addrs.len(),
                views(all_nodes@) == views(peer_addrs@).subrange(0, i as int),
                present == views(peer_addrs@).subrange(0, i as int).contains(local_addr@),
            decreases peer_addrs.len() - i,
        {
            let ghost pre = views(all_nodes@);
            if peer_addrs[i] == local_addr {
                present = true;
            }
            let c = peer_addrs[i].clone();
            all_nodes.push(c);
            assert(views(all_nodes@) =~= pre.push(c@));
            assert(views(all_nodes@) =~= views(peer_addrs@).subrange(0, i + 1 as int));
            assert(views(peer_addrs@).subrange(0, i + 1 as int) =~= pre.push(views(peer_addrs@)[i as int]));
            assert(present == views(peer_addrs@).subrange(0, i + 1 as int).contains(local_addr@)) by {
                let q = views(peer_addrs@).subrange(0, i + 1 as int);
                if q.contains(local_addr@) && views(peer_addrs@)[i as int] != local_addr@ {
                    let a = choose|a: int| 0 <= a < q.len() && #[trigger] q[a] == local_addr@;
                    assert(pre[a] == local_addr@);
                }
                if views(peer_addrs@)[i as int] == local_addr@ {
                    assert(q[i as int] == local_addr@);
                }
                if pre.contains(local_addr@) {
                    let a = choose|a: int| 0 <= a < pre.len() && #[trigger] pre[a] == local_addr@;
                    assert(q[a] == local_addr@);
                }
            }
            i = i + 1;
        }
        assert(views(peer_addrs@).subrange(0, i as int) =~= views(peer_addrs@));
        let ghost given = views(peer_addrs@);
        if !present {
            all_nodes.push(local_addr.clone());
            proof {
                assert(views(all_nodes@) =~= given.push(local_addr@));
                given.lemma_push_to_set_commute(local_addr@);
            }
        } else {
            assert(given.to_set().insert(local_addr@) =~= given.to_set());
        }
        let router = SessionRouter::new(all_nodes, local_addr);
        let c = ClusterManager {
            local_id,
            router,
            dead_until: StrTable::new(),
            started: instant_now(),
        };
        c
    }

    /// Whether this node owns `session_id`.
    pub fn is_local_session(&self, session_id: &str) -> (r: bool)
        ensures
            r == (owner_of(self.router().nodes(), self.router().local(), session_id@)
                == self.router().local()),
    {
        self.router.is_local(session_id)
    }

    /// The address of the node that owns `session_id`.
    pub fn node_for_session(&self, session_id: &str) -> (r: String)
        ensures
            r@ == owner_of(self.router().nodes(), self.router().local(), session_id@),
    {
        self.router.node_for_session(session_id).to_owned()
    }

    /// The number of peers (nodes other than this one).
    pub fn peer_count(&self) -> (r: usize)
        ensures
            r == if self.router().nodes().len() > 0 {
                self.router().nodes().len() - 1
            } else {
                0
            },
    {
        self.router.peer_count()
    }

    /// The peers' addresses (this node's excluded), in order.
    pub fn peer_addrs(&self) -> (r: Vec<String>)
        ensures
            views(r@) == others(self.router().nodes(), self.router().local()),
    {
        self.router.peer_addrs()
    }

    /// The instant this manager's clock started.
    pub closed spec fn started(&self) -> std::time::Instant {
        self.started
    }

    /// Whether `t` is a reading of this manager's clock: milliseconds since
    /// it started, as a call of `elapsed_ms` on its start gave.
    pub open spec fn clock_reading(&self, t: u64) -> bool {
        instant_reading(self.started(), t)
    }

    /// The time on this manager's clock, in milliseconds since it started.
    /// Nothing is promised of the value but that it is a reading of the
    /// clock.
    pub(crate) fn clock_ms(&self) -> (t: u64)
        ensures
            self.clock_reading(t),
    {
        elapsed_ms(&self.started)
    }

    /// Whether `addr` is held dead at time `now_ms` on this manager's clock.
    pub fn is_dead_at(&self, addr: &str, now_ms: u64) -> (r: bool)
        requires
            self.wf(),
        ensures
            r == dead_at(self.deadlines(), addr@, now_ms),
    {
        match self.dead_until.get(addr) {
            Some(until) => now_ms < until,
            None => false,
        }
    }

    /// Whether `addr` is held dead now.
    pub fn is_dead(&self, addr: &str) -> (r: bool)
        requires
            self.wf(),
        ensures
            exists|t: u64| self.clock_reading(t) && r == dead_at(self.deadlines(), addr@, t),
    {
        let now = self.clock_ms();
        let r = self.is_dead_at(addr, now);
        assert(r == dead_at(self.deadlines(), addr@, now));
        r
    }

    /// Holds `addr` dead until `DEAD_PEER_TIMEOUT_MS` after `now_ms`.
    pub fn mark_dead_at(&mut self, addr: &str, now_ms: u64)
        requires
            old(self).wf(),
        ensures
            final(self).wf(),
            final(self).router() == old(self).router(),
            final(self).id() == old(self).id(),
            final(self).started() == old(self).started(),
            final(self).deadlines() == old(self).deadlines().insert(addr@, deadline_after(now_ms)),
    {
        let until = now_ms.saturating_add(DEAD_PEER_TIMEOUT_MS);
        self.dead_until.set(addr, until);
    }

    /// Holds `addr` dead for `DEAD_PEER_TIMEOUT_MS` from now.
    pub fn mark_dead(&mut self, addr: &str)
        requires
            old(self).wf(),
        ensures
            final(self).wf(),
            final(self).router() == old(self).router(),
            final(self).id() == old(self).id(),
            final(self).started() == old(self).started(),
            exists|t: u64|
                old(self).clock_reading(t) && final(self).deadlines() == old(self).deadlines().insert(
                    addr@,
                    deadline_after(t),
                ),
    {
        let now = self.clock_ms();
        self.mark_dead_at(addr, now);
        assert(self.deadlines() == old(self).deadlines().insert(addr@, deadline_after(now)));
    }

    /// Forgets any dead mark of `addr`.
    pub fn clear_dead(&mut self, addr: &str)
        requires
            old(self).wf(),
        ensures
            final(self).wf(),
            final(self).router() == old(self).router(),
            final(self).id() == old(self).id(),
            final(self).started() == old(self).started(),
            final(self).deadlines() == old(self).deadlines().remove(addr@),
    {
        let _ = self.dead_until.remove(addr);
    }

    /// The peers that are not held dead at `now_ms`, in order: those a
    /// fan-out search asks.
    pub fn live_peers_at(&self, now_ms: u64) -> (r: Vec<String>)
        requires
            self.wf(),
        ensures
            views(r@) == others(self.router().nodes(), self.router().local()).filter(
                alive_at(self.deadlines(), now_ms),
            ),
    {
        let peers = self.peer_addrs();
        let ghost ps = views(peers@);
        let mut r: Vec<String> = Vec::new();
        let mut i: usize = 0;
        assert(ps.subrange(0, 0).filter(alive_at(self.deadlines(), now_ms)) =~= Seq::<Seq<char>>::empty());
        while i < peers.len()
            invariant
                self.wf(),
                ps == views(peers@),
                i <= peers.len(),
                views(r@) == ps.subrange(0, i as int).filter(alive_at(self.deadlines(), now_ms)),
            decreases peers.len() - i,
        {
            assert(ps.subrange(0, i + 1 as int) =~= ps.subrange(0, i as int).push(ps[i as int]));
            proof {
                Seq::lemma_filter_push(ps.subrange(0, i as int), ps[i as int], alive_at(self.deadlines(), now_ms));
            }
            if !self.is_dead_at(peers[i].as_str(), now_ms) {
                let ghost pre = r@;
                r.push(peers[i].clone());
                assert(views(r@) =~= views(pre).push(ps[i as int]));
            }
            i = i + 1;
        }
        assert(ps.subrange(0, i as int) =~= ps);
        r
    }

    /// The peers that are not held dead now.
    pub fn live_peers(&self) -> (r: Vec<String>)
        requires
            self.wf(),
        ensures
            exists|t: u64|
                self.clock_reading(t) && views(r@) == others(
                    self.router().nodes(),
                    self.router().local(),
                ).filter(alive_at(self.deadlines(), t)),
    {
        let now = self.clock_ms();
        let r = self.live_peers_at(now);
        assert(views(r@) == others(self.router().nodes(), self.router().local()).filter(
            alive_at(self.deadlines(), now),
        ));
        r
    }

    /// The number of peers held dead at `now_ms`.
    pub fn dead_peer_count_at(&self, now_ms: u64) -> (n: usize)
        requires
            self.wf(),
        ensures
            n == others(self.router().nodes(), self.router().local()).filter(
                held_dead_at(self.deadlines(), now_ms),
            ).len(),
    {
        let peers = self.peer_addrs();
        let ghost ps = views(peers@);
        let mut n: usize = 0;
        let mut i: usize = 0;
        assert(ps.subrange(0, 0).filter(held_dead_at(self.deadlines(), now_ms)) =~= Seq::<Seq<char>>::empty());
        while i < peers.len()
            invariant
                self.wf(),
                ps == views(peers@),
                i <= peers.len(),
                n == ps.subrange(0, i as int).filter(held_dead_at(self.deadlines(), now_ms)).len(),
                n <= i,
            decreases peers.len() - i,
        {
            assert(ps.subrange(0, i + 1 as int) =~= ps.subrange(0, i as int).push(ps[i as int]));
            proof {
                Seq::lemma_filter_push(ps.subrange(0, i as int), ps[i as int], held_dead_at(self.deadlines(), now_ms));
            }
            if self.is_dead_at(peers[i].as_str(), now_ms) {
                n = n + 1;
            }
            i = i + 1;
        }
        assert(ps.subrange(0, i as int) =~= ps);
        n
    }

    /// The number of peers held dead now.
    pub fn dead_peer_count(&self) -> (n: usize)
        requires
            self.wf(),
        ensures
            exists|t: u64|
                self.clock_reading(t) && n == others(
                    self.router().nodes(),
                    self.router().local(),
                ).filter(held_dead_at(self.deadlines(), t)).len(),
            n <= others(self.router().nodes(), self.router().local()).len(),
    {
        let now = self.clock_ms();
        let n = self.dead_peer_count_at(now);
        proof {
            let ps = others(self.router().nodes(), self.router().local());
            ps.lemma_filter_len(held_dead_at(self.deadlines(), now));
        }
        assert(n == others(self.router().nodes(), self.router().local()).filter(
            held_dead_at(self.deadlines(), now),
        ).len());
        n
    }
}

} // verus!
