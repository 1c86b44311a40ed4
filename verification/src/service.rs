//! Request decisions of the gRPC service: where a write goes, and which
//! search results survive the merge of local and peer answers.

use crate::cluster::{dead_at, ClusterManager};
use crate::router::owner_of;
use crate::text::{decimal, decimal_string, views};
use vstd::prelude::*;

verus! {

/// Where a write is handled.
#[derive(Debug)]
pub enum WriteRoute {
    /// Here.
    Local,
    /// At the peer with this address, which owns the session.
    Forward(String),
}

/// Whether `r` is where a write for `session_id` goes at time `now`: to the
/// session's owner when that is another node not held dead, else here.
pub open spec fn routes_at(cluster: ClusterManager, session_id: Seq<char>, now: u64, r: WriteRoute) -> bool {
    let owner = owner_of(cluster.router().nodes(), cluster.router().local(), session_id);
    if owner == cluster.router().local() || dead_at(cluster.deadlines(), owner, now) {
        r is Local
    } else {
        r matches WriteRoute::Forward(a) && a@ == owner
    }
}

/// Where a write for `session_id` goes at time `now_ms`.
pub fn route_write_at(cluster: &ClusterManager, session_id: &str, now_ms: u64) -> (r: WriteRoute)
    requires
        cluster.wf(),
    ensures
        routes_at(*cluster, session_id@, now_ms, r),
{
    if cluster.is_local_session(session_id) {
        return WriteRoute::Local;
    }
    let owner = cluster.node_for_session(session_id);
    if cluster.is_dead_at(owner.as_str(), now_ms) {
        WriteRoute::Local
    } else {
        WriteRoute::Forward(owner)
    }
}

/// Where a write for `session_id` goes now (as [`route_write_at`] at the
/// time of the manager's clock).
pub fn route_write(cluster: &ClusterManager, session_id: &str) -> (r: WriteRoute)
    requires
        cluster.wf(),
    ensures
        exists|t: u64| cluster.clock_reading(t) && routes_at(*cluster, session_id@, t, r),
{
    let now = cluster.clock_ms();
    route_write_at(cluster, session_id, now)
}

/// The status line of a health check: the number of peers, and the number
/// of dead ones where there are any.
pub open spec fn health_text(peers: nat, dead: nat) -> Seq<char> {
    if dead > 0 {
        "ok (peers: "@ + decimal(peers) + ", dead: "@ + decimal(dead) + ")"@
    } else {
        "ok (peers: "@ + decimal(peers) + ")"@
    }
}

/// The status line of a health check for `peers` peers of which `dead` are
/// held dead.
pub fn health_status(peers: usize, dead: usize) -> (s: String)
    ensures
        s@ == health_text(peers as nat, dead as nat),
{
    let mut s = "ok (peers: ".to_owned();
    let p = decimal_string(peers);
    s.append(p.as_str());
    if dead > 0 {
        s.append(", dead: ");
        let d = decimal_string(dead);
        s.append(d.as_str());
    }
    s.append(")");
    s
}

/// Whether the result at `i` survives the merge: results without a chunk
/// id, or with an empty one, always do; of the others, the first with each
/// id does.
pub open spec fn survives_merge(ids: Seq<Option<Seq<char>>>, i: int) -> bool {
    match ids[i] {
        None => true,
        Some(x) => x.len() == 0 || !(exists|j: int| 0 <= j < i && ids[j] == Some(x)),
    }
}

/// The chunk ids of results, by value.
pub open spec fn id_views(ids: Seq<Option<String>>) -> Seq<Option<Seq<char>>> {
    ids.map_values(|o: Option<String>| match o {
        Some(s) => Some(s@),
        None => None,
    })
}

/// For each merged search result (given by its chunk id), whether it is
/// kept when duplicates are dropped.
pub fn first_occurrences(ids: &Vec<Option<String>>) -> (keep: Vec<bool>)
    ensures
        keep@.len() == ids@.len(),
        forall|i: int| 0 <= i < ids@.len() ==> keep@[i] == survives_merge(id_views(ids@), i),
{
    let ghost iv = id_views(ids@);
    let mut seen: Vec<String> = Vec::new();
    let mut keep: Vec<bool> = Vec::new();
    let mut i: usize = 0;
    while i < ids.len()
        invariant
            iv == id_views(ids@),
            i <= ids@.len(),
            keep@.len() == i,
            forall|k: int| 0 <= k < i ==> keep@[k] == survives_merge(iv, k),
            forall|y: Seq<char>|
                views(seen@).contains(y) <==> (y.len() > 0 && exists|j: int|
                    0 <= j < i && iv[j] == Some(y)),
        decreases ids@.len() - i,
    {
        let ghost pre_seen = views(seen@);
        let k = match &ids[i] {
            None => true,
            Some(x) => {
                if x.as_str().is_empty() {
                    true
                } else {
                    let mut found = false;
                    let mut s: usize = 0;
                    while s < seen.len()
                        invariant
                            s <= seen@.len(),
                            found == views(seen@).subrange(0, s as int).contains(x@),
                        decreases seen@.len() - s,
                    {
                        if seen[s] == *x {
                            found = true;
                        }
                        proof {
                            let q = views(seen@).subrange(0, s + 1 as int);
                            assert(q =~= views(seen@).subrange(0, s as int).push(views(seen@)[s as int]));
                            views(seen@).subrange(0, s as int).lemma_push_to_set_commute(views(seen@)[s as int]);
                            if q.contains(x@) && !views(seen@).subrange(0, s as int).contains(x@) {
                                let a = choose|a: int| 0 <= a < q.len() && #[trigger] q[a] == x@;
                                assert(a == s);
                            }
                            if views(seen@).subrange(0, s as int).contains(x@) {
                                let a = choose|a: int| 0 <= a < s && #[trigger] views(seen@).subrange(0, s as int)[a] == x@;
                                assert(q[a] == x@);
                            }
                            if seen@[s as int]@ == x@ {
                                assert(q[s as int] == x@);
                            }
                        }
                        s = s + 1;
                    }
                    assert(views(seen@).subrange(0, s as int) =~= views(seen@));
                    if found {
                        false
                    } else {
                        seen.push(x.clone());
                        true
                    }
                }
            },
        };
        proof {
            assert(iv[i as int] == match ids@[i as int] {
                Some(s) => Some(s@),
                None => None,
            });
            match iv[i as int] {
                Some(x) => {
                    if x.len() > 0 && pre_seen.contains(x) {
                        assert(exists|j: int| 0 <= j < i && iv[j] == Some(x));
                    }
                },
                None => {},
            }
            assert forall|y: Seq<char>|
                views(seen@).contains(y) <==> (y.len() > 0 && exists|j: int|
                    0 <= j < i + 1 && iv[j] == Some(y)) by {
                if views(seen@).contains(y) && !pre_seen.contains(y) {
                    let a = choose|a: int| 0 <= a < views(seen@).len() && views(seen@)[a] == y;
                    if a < pre_seen.len() {
                        assert(pre_seen[a] == y);
                    }
                }
                if pre_seen.contains(y) {
                    let a = choose|a: int| 0 <= a < pre_seen.len() && pre_seen[a] == y;
                    assert(views(seen@)[a] == y);
                }
                if y.len() > 0 && iv[i as int] == Some(y) && !pre_seen.contains(y) {
                    assert(views(seen@)[views(seen@).len() - 1] == y);
                }
            }
        }
        keep.push(k);
        i = i + 1;
    }
    keep
}

} // verus!
