//! The galaxy route table.
//!
//! For every ordered pair of systems the table caches the shortest hop
//! sequence, found by one breadth-first search per origin over the adjacency
//! lists. Neighbors are visited in the order their gates were registered, so
//! among several shortest paths the first one in that order wins, stably
//! across rebuilds. For unreachable pairs no entry is stored: a missing
//! lookup means "no route", not an error.

use vstd::prelude::*;

use crate::galaxy::Galaxy;

verus! {

/// Adjacency lists over system indices: every named neighbor exists.
pub open spec fn valid_adj(adj: Seq<Seq<usize>>) -> bool {
    forall|i: int, j: int|
        0 <= i < adj.len() && 0 <= j < adj[i].len() ==> (#[trigger] adj[i][j]) < adj.len()
}

/// `p` is a walk through the adjacency lists: nonempty, in range, and each
/// consecutive pair joined by an edge.
pub open spec fn is_path(adj: Seq<Seq<usize>>, p: Seq<usize>) -> bool {
    &&& p.len() > 0
    &&& forall|k: int| 0 <= k < p.len() ==> (#[trigger] p[k]) < adj.len()
    &&& forall|k: int| 0 <= k < p.len() - 1 ==> adj[(#[trigger] p[k]) as int].contains(p[k + 1])
}

/// `p` is a walk from system `a` to system `b`.
pub open spec fn connects(adj: Seq<Seq<usize>>, p: Seq<usize>, a: int, b: int) -> bool {
    &&& is_path(adj, p)
    &&& p[0] as int == a
    &&& p[p.len() - 1] as int == b
}

/// The predecessor chain of a finished search is sound: every discovered
/// system other than the source hangs off a discovered predecessor one hop
/// closer to the source.
#[verifier::opaque]
spec fn bfs_chain_ok(
    adj: Seq<Seq<usize>>,
    src: int,
    dist: Seq<Option<usize>>,
    pred: Seq<usize>,
) -> bool {
    forall|v: int|
        0 <= v < dist.len() && (#[trigger] dist[v]) is Some && v != src ==> {
            &&& (pred[v] as int) < dist.len()
            &&& dist[pred[v] as int] is Some
            &&& dist[pred[v] as int].unwrap() + 1 == dist[v].unwrap()
            &&& adj[pred[v] as int].contains(v as usize)
        }
}

/// Every edge out of a discovered system leads to a discovered system at
/// most one hop further: the closure a finished search guarantees.
spec fn bfs_closed(adj: Seq<Seq<usize>>, dist: Seq<Option<usize>>) -> bool {
    forall|u: int, k: int|
        0 <= u < adj.len() && dist[u] is Some && 0 <= k < adj[u].len() ==> {
            &&& dist[(#[trigger] adj[u][k]) as int] is Some
            &&& dist[adj[u][k] as int].unwrap() <= dist[u].unwrap() + 1
        }
}

/// The set of discovered systems.
spec fn discovered_set(dist: Seq<Option<usize>>) -> Set<int> {
    Set::new(|v: int| 0 <= v < dist.len() && dist[v] is Some)
}

/// `v` still waits in the pending part of the queue.
spec fn in_frontier(q: Seq<usize>, h: int, v: int) -> bool {
    exists|i: int| h <= i < q.len() && (#[trigger] q[i]) as int == v
}

/// Every edge out of a discovered system that already left the queue leads
/// to a discovered system at most one hop further.
#[verifier::opaque]
spec fn frontier_closed(
    adj: Seq<Seq<usize>>,
    dist: Seq<Option<usize>>,
    q: Seq<usize>,
    h: int,
) -> bool {
    forall|w: int, m: int|
        0 <= w < adj.len() && dist[w] is Some && !in_frontier(q, h, w) && 0 <= m < adj[w].len()
            ==> {
            &&& dist[(#[trigger] adj[w][m]) as int] is Some
            &&& dist[adj[w][m] as int].unwrap() <= dist[w].unwrap() + 1
        }
}

/// In a closed search state rooted at `src`, any walk from `src` to `v`
/// witnesses that `v` was discovered at no more hops than the walk has.
proof fn lemma_bfs_minimal(
    adj: Seq<Seq<usize>>,
    src: int,
    dist: Seq<Option<usize>>,
    p: Seq<usize>,
    v: int,
)
    requires
        valid_adj(adj),
        dist.len() == adj.len(),
        0 <= src < adj.len(),
        dist[src] == Some(0usize),
        bfs_closed(adj, dist),
        connects(adj, p, src, v),
    ensures
        0 <= v < adj.len(),
        dist[v] is Some,
        dist[v].unwrap() as int <= p.len() - 1,
    decreases p.len(),
{
    if p.len() == 1 {
        assert(v == src);
    } else {
        let q = p.drop_last();
        let u = p[p.len() - 2] as int;
        assert(q.len() == p.len() - 1);
        assert(q[0] == p[0]);
        assert(q[q.len() - 1] == p[p.len() - 2]);
        assert forall|k: int| 0 <= k < q.len() - 1 implies adj[(#[trigger] q[k]) as int].contains(
            q[k + 1],
        ) by {
            assert(q[k] == p[k]);
            assert(q[k + 1] == p[k + 1]);
        }
        assert(connects(adj, q, src, u));
        lemma_bfs_minimal(adj, src, dist, q, u);
        assert(adj[u].contains(p[p.len() - 1]));
        let k = choose|k: int| 0 <= k < adj[u].len() && adj[u][k] == p[p.len() - 1];
        assert(dist[adj[u][k] as int] is Some && dist[adj[u][k] as int].unwrap() <= dist[u].unwrap()
            + 1);
    }
}

fn vec_set<T>(v: &mut Vec<T>, i: usize, x: T)
    requires
        (i as int) < old(v)@.len(),
    ensures
        final(v)@ == old(v)@.update(i as int, x),
{
    let slot = &mut v[i];
    *slot = x;
}

/// Queue entries name discovered systems.
#[verifier::opaque]
spec fn queue_discovered(dist: Seq<Option<usize>>, q: Seq<usize>, n: int) -> bool {
    forall|i: int| 0 <= i < q.len() ==> (#[trigger] q[i]) < n && dist[q[i] as int] is Some
}

/// Distances along the pending part of the queue are sorted and spread over
/// at most two consecutive values.
#[verifier::opaque]
spec fn queue_sorted(dist: Seq<Option<usize>>, q: Seq<usize>, h: int) -> bool {
    forall|i: int, j: int|
        h <= i <= j < q.len() ==> (#[trigger] dist[q[i] as int]).unwrap() <= (
        #[trigger] dist[q[j] as int]).unwrap() <= dist[q[i] as int].unwrap() + 1
}

/// Every discovered system was found at fewer hops than there are entries
/// in the queue.
#[verifier::opaque]
spec fn dist_bounded(dist: Seq<Option<usize>>, bound: int) -> bool {
    forall|v: int|
        0 <= v < dist.len() ==> ((#[trigger] dist[v]) is Some ==> (dist[v].unwrap() as int)
            < bound)
}

/// Every discovered distance is at most the distance of the newest queue
/// entry: discovery order never runs ahead of the queue tail.
#[verifier::opaque]
spec fn dist_le_tail(dist: Seq<Option<usize>>, q: Seq<usize>) -> bool {
    &&& q.len() >= 1
    &&& forall|v: int|
        0 <= v < dist.len() && (#[trigger] dist[v]) is Some ==> dist[v].unwrap() <= dist[q[q.len()
            - 1] as int].unwrap()
}

/// The whole invariant of the search loop, pending entries from `h` on.
spec fn bfs_state_ok(
    adj: Seq<Seq<usize>>,
    src: int,
    dist: Seq<Option<usize>>,
    pred: Seq<usize>,
    q: Seq<usize>,
    h: int,
) -> bool {
    &&& dist.len() == adj.len()
    &&& pred.len() == adj.len()
    &&& dist[src] == Some(0usize)
    &&& bfs_chain_ok(adj, src, dist, pred)
    &&& queue_discovered(dist, q, adj.len() as int)
    &&& queue_sorted(dist, q, h)
    &&& frontier_closed(adj, dist, q, h)
    &&& dist_le_tail(dist, q)
    &&& discovered_set(dist).finite()
    &&& discovered_set(dist).len() == q.len()
    &&& dist_bounded(dist, q.len() as int)
}

/// The search state after relaxing the edges of `u` from neighbor index `k`
/// on: undiscovered neighbors get their distance and predecessor and join
/// the queue, in neighbor-list order. The spec-level model that pins the
/// search result, tie-breaks included.
pub open spec fn bfs_visit_spec(
    adj: Seq<Seq<usize>>,
    dist: Seq<Option<usize>>,
    pred: Seq<usize>,
    q: Seq<usize>,
    u: int,
    k: nat,
) -> (Seq<Option<usize>>, Seq<usize>, Seq<usize>)
    decreases adj[u].len() - k,
{
    if !(0 <= u < adj.len()) || k >= adj[u].len() {
        (dist, pred, q)
    } else {
        let w = adj[u][k as int] as int;
        if dist[w] is Some {
            bfs_visit_spec(adj, dist, pred, q, u, (k + 1) as nat)
        } else {
            bfs_visit_spec(
                adj,
                dist.update(w, Some((dist[u].unwrap() + 1) as usize)),
                pred.update(w, u as usize),
                q.push(adj[u][k as int]),
                u,
                (k + 1) as nat,
            )
        }
    }
}

/// The search state after working the queue from entry `h` on, for at most
/// `fuel` more entries.
pub open spec fn bfs_loop_spec(
    adj: Seq<Seq<usize>>,
    dist: Seq<Option<usize>>,
    pred: Seq<usize>,
    q: Seq<usize>,
    h: nat,
    fuel: nat,
) -> (Seq<Option<usize>>, Seq<usize>)
    decreases fuel,
{
    if fuel == 0 || h >= q.len() {
        (dist, pred)
    } else {
        let t = bfs_visit_spec(adj, dist, pred, q, q[h as int] as int, 0);
        bfs_loop_spec(adj, t.0, t.1, t.2, (h + 1) as nat, (fuel - 1) as nat)
    }
}

/// The distance column before the search starts: only the source is
/// discovered, at zero hops.
pub open spec fn bfs_init_dist(n: nat, src: int) -> Seq<Option<usize>> {
    Seq::new(n, |v: int| if v == src { Some(0usize) } else { None })
}

/// The predecessor column before the search starts.
pub open spec fn bfs_init_pred(n: nat) -> Seq<usize> {
    Seq::new(n, |v: int| 0usize)
}

/// The distances and predecessors one breadth-first search from `src`
/// computes, as a function of the adjacency alone.
pub open spec fn bfs_spec(adj: Seq<Seq<usize>>, src: int) -> (Seq<Option<usize>>, Seq<usize>) {
    bfs_loop_spec(
        adj,
        bfs_init_dist(adj.len(), src),
        bfs_init_pred(adj.len()),
        seq![(src as usize)],
        0,
        adj.len(),
    )
}

/// Processes one pending system: relaxes each of its edges in neighbor-list
/// order, discovering and enqueueing systems not seen before.
#[verifier::rlimit(100)]
fn bfs_process_system(
    adj: &Vec<Vec<usize>>,
    dist: &mut Vec<Option<usize>>,
    pred: &mut Vec<usize>,
    q: &mut Vec<usize>,
    src: usize,
    h: usize,
)
    requires
        valid_adj(adj.deep_view()),
        (src as int) < adj@.len(),
        (h as int) < old(q)@.len(),
        old(q)@.len() <= adj@.len(),
        bfs_state_ok(adj.deep_view(), src as int, old(dist)@, old(pred)@, old(q)@, h as int),
    ensures
        bfs_state_ok(
            adj.deep_view(),
            src as int,
            final(dist)@,
            final(pred)@,
            final(q)@,
            h as int + 1,
        ),
        old(q)@.len() <= final(q)@.len(),
        forall|i: int| 0 <= i < old(q)@.len() ==> (#[trigger] final(q)@[i]) == old(q)@[i],
        forall|v: int|
            0 <= v < adj@.len() && (#[trigger] old(dist)@[v]) is Some ==> final(dist)@[v] == old(
                dist,
            )@[v],
        (final(dist)@, final(pred)@, final(q)@) == bfs_visit_spec(
            adj.deep_view(),
            old(dist)@,
            old(pred)@,
            old(q)@,
            old(q)@[h as int] as int,
            0,
        ),
{
    let ghost adjv = adj.deep_view();
    let n = adj.len();
    proof {
        reveal(queue_discovered);
        assert(adjv.len() == n);
        assert forall|i: int| 0 <= i < n implies (#[trigger] adjv[i]).len() == adj@[i]@.len() by {}
        assert((q@[h as int] as int) < n && dist@[q@[h as int] as int] is Some);
    }
    let u = q[h];
    let d = match dist[u] {
        Option::Some(d) => d,
        Option::None => 0,  // unreachable: queue entries are discovered
    };
    let deg = adj[u].len();
    let mut k: usize = 0;
    while k < deg
        invariant
            bfs_visit_spec(adjv, dist@, pred@, q@, u as int, k as nat) == bfs_visit_spec(
                adjv,
                old(dist)@,
                old(pred)@,
                old(q)@,
                u as int,
                0,
            ),
            n == adjv.len(),
            n == adj@.len(),
            adjv == adj.deep_view(),
            valid_adj(adjv),
            (src as int) < n,
            0 <= h < q@.len(),
            u == q@[h as int],
            (u as int) < n,
            dist@[u as int] == Some(d),
            deg == adjv[u as int].len(),
            0 <= k <= deg,
            bfs_state_ok(adjv, src as int, dist@, pred@, q@, h as int),
            // edges of `u` seen so far are relaxed
            forall|m: int|
                0 <= m < k ==> dist@[(#[trigger] adjv[u as int][m]) as int] is Some
                    && dist@[adjv[u as int][m] as int].unwrap() <= d + 1,
            old(q)@.len() <= q@.len(),
            forall|i: int| 0 <= i < old(q)@.len() ==> (#[trigger] q@[i]) == old(q)@[i],
            forall|v: int|
                0 <= v < n && (#[trigger] old(dist)@[v]) is Some ==> dist@[v] == old(dist)@[v],
        decreases deg - k,
    {
        let row = &adj[u];
        let w = row[k];
        proof {
            assert(adjv[u as int][k as int] == adj@[u as int]@[k as int]);
            assert((w as int) < n);
        }
        let disc = match dist[w] {
            Option::Some(_) => true,
            Option::None => false,
        };
        if disc {
            proof {
                reveal(queue_sorted);
                reveal(dist_le_tail);
                assert(dist@[w as int].unwrap() <= dist@[q@[q@.len() - 1] as int].unwrap());
                assert(h <= q@.len() - 1 < q@.len());
                assert(dist@[q@[q@.len() - 1] as int].unwrap() <= dist@[q@[h as int] as int].unwrap()
                    + 1);
                assert(dist@[w as int].unwrap() <= d + 1);
                // a discovered neighbor leaves the search state alone
                assert(bfs_visit_spec(adjv, dist@, pred@, q@, u as int, k as nat)
                    == bfs_visit_spec(adjv, dist@, pred@, q@, u as int, (k + 1) as nat));
            }
        } else {
            let ghost dist0 = dist@;
            let ghost pred0s = pred@;
            let ghost q0 = q@;
            let ql = q.len();
            proof {
                reveal(dist_bounded);
                assert((d as int) < ql as int);
            }
            vec_set(dist, w, Option::Some(d + 1));
            vec_set(pred, w, u);
            q.push(w);
            proof {
                reveal(bfs_chain_ok);
                reveal(frontier_closed);
                reveal(queue_discovered);
                reveal(queue_sorted);
                reveal(dist_bounded);
                reveal(dist_le_tail);
                // an undiscovered neighbor is adopted exactly as the spec
                // model says
                assert(dist@ == dist0.update(w as int, Some((d + 1) as usize)));
                assert(q@ == q0.push(w));
                assert(bfs_visit_spec(adjv, dist0, pred0s, q0, u as int, k as nat)
                    == bfs_visit_spec(adjv, dist@, pred@, q@, u as int, (k + 1) as nat));
                assert(discovered_set(dist@) =~= discovered_set(dist0).insert(w as int));
                assert(!discovered_set(dist0).contains(w as int));
                assert(discovered_set(dist0).insert(w as int).len() == discovered_set(dist0).len()
                    + 1);
                assert(discovered_set(dist@).len() == q@.len());
                assert(q@[q@.len() - 1] == w);
                // sortedness with the new tail entry
                assert forall|i: int, j: int|
                    h <= i <= j < q@.len() implies (#[trigger] dist@[q@[i] as int]).unwrap() <= (
                #[trigger] dist@[q@[j] as int]).unwrap() <= dist@[q@[i] as int].unwrap() + 1 by {
                    if j < q@.len() - 1 {
                        assert(dist0[q0[i] as int] == dist@[q@[i] as int]);
                        assert(dist0[q0[j] as int] == dist@[q@[j] as int]);
                    } else {
                        assert(dist@[q@[j] as int] == Some((d + 1) as usize));
                        if i < q@.len() - 1 {
                            assert(dist0[q0[i] as int] == dist@[q@[i] as int]);
                            assert(dist0[q0[h as int] as int].unwrap() == d);
                        }
                    }
                }
                assert(queue_sorted(dist@, q@, h as int));
                // systems already processed stay closed: none of them had an
                // edge to `w`, which was undiscovered until now
                assert forall|w2: int, m: int|
                    0 <= w2 < n && dist@[w2] is Some && !in_frontier(q@, h as int, w2) && 0 <= m
                        < adjv[w2].len() implies {
                    &&& dist@[(#[trigger] adjv[w2][m]) as int] is Some
                    &&& dist@[adjv[w2][m] as int].unwrap() <= dist@[w2].unwrap() + 1
                } by {
                    assert(in_frontier(q@, h as int, w as int));
                    assert(w2 != w as int);
                    assert(dist0[w2] is Some);
                    assert forall|i: int|
                        h <= i < q0.len() && (#[trigger] q0[i]) as int == w2 implies false by {
                        assert(q@[i] as int == w2);
                        assert(in_frontier(q@, h as int, w2));
                    }
                    assert(!in_frontier(q0, h as int, w2));
                    assert(dist0[(adjv[w2][m]) as int] is Some);
                    assert(adjv[w2][m] as int != w as int);
                    assert(dist@[(adjv[w2][m]) as int] == dist0[(adjv[w2][m]) as int]);
                    assert(dist@[w2] == dist0[w2]);
                }
                assert(frontier_closed(adjv, dist@, q@, h as int));
                assert(bfs_chain_ok(adjv, src as int, dist@, pred@));
                // the new entry carries the greatest distance seen so far
                assert forall|v: int|
                    0 <= v < n && (#[trigger] dist@[v]) is Some implies dist@[v].unwrap()
                    <= dist@[q@[q@.len() - 1] as int].unwrap() by {
                    assert(q@[q@.len() - 1] == w);
                    assert(dist@[w as int] == Some((d + 1) as usize));
                    if v != w as int {
                        assert(dist0[v] is Some);
                        assert(dist0[v].unwrap() <= dist0[q0[q0.len() - 1] as int].unwrap());
                        assert(dist0[q0[h as int] as int].unwrap() == d);
                        assert(dist0[q0[q0.len() - 1] as int].unwrap() <= d + 1);
                        assert(dist@[v] == dist0[v]);
                    }
                }
                assert(dist_le_tail(dist@, q@));
                // every edge of `u` looked at so far is relaxed
                assert forall|m: int|
                    0 <= m <= k implies dist@[(#[trigger] adjv[u as int][m]) as int] is Some
                    && dist@[adjv[u as int][m] as int].unwrap() <= d + 1 by {
                    if m < k {
                        assert(dist0[adjv[u as int][m] as int] is Some);
                        assert(adjv[u as int][m] as int != w as int);
                    } else {
                        assert(adjv[u as int][m] == w);
                    }
                }
            }
        }
        k += 1;
    }
    proof {
        reveal(frontier_closed);
        reveal(queue_sorted);
        // `u` leaves the pending queue with all its edges relaxed
        assert forall|w: int, m: int|
            0 <= w < n && dist@[w] is Some && !in_frontier(q@, h as int + 1, w) && 0 <= m
                < adjv[w].len() implies {
            &&& dist@[(#[trigger] adjv[w][m]) as int] is Some
            &&& dist@[adjv[w][m] as int].unwrap() <= dist@[w].unwrap() + 1
        } by {
            if w == u as int {
                assert(dist@[adjv[w][m] as int] is Some && dist@[adjv[w][m] as int].unwrap() <= d
                    + 1);
            } else {
                assert forall|i: int|
                    h <= i < q@.len() && (#[trigger] q@[i]) as int == w implies false by {
                    assert(i != h as int);
                    assert(in_frontier(q@, h as int + 1, w));
                }
                assert(!in_frontier(q@, h as int, w));
            }
        }
        assert(frontier_closed(adjv, dist@, q@, h as int + 1));
        assert(queue_sorted(dist@, q@, h as int + 1));
        // every edge relaxed: the model's recursion bottoms out here
        assert(bfs_visit_spec(adjv, dist@, pred@, q@, u as int, deg as nat) == (
            dist@,
            pred@,
            q@,
        ));
    }
}

/// One breadth-first search from `src`: returns the hop distance and the
/// predecessor of every reached system. Unreached systems stay `None`; the
/// predecessor entries of unreached systems and of `src` are meaningless.
fn bfs(adj: &Vec<Vec<usize>>, src: usize) -> (out: (Vec<Option<usize>>, Vec<usize>))
    requires
        valid_adj(adj.deep_view()),
        (src as int) < adj@.len(),
    ensures
        out.0@.len() == adj@.len(),
        out.1@.len() == adj@.len(),
        out.0@[src as int] == Some(0usize),
        bfs_chain_ok(adj.deep_view(), src as int, out.0@, out.1@),
        bfs_closed(adj.deep_view(), out.0@),
        dist_bounded(out.0@, adj@.len() as int),
        (out.0@, out.1@) == bfs_spec(adj.deep_view(), src as int),
{
    let ghost adjv = adj.deep_view();
    let n = adj.len();
    proof {
        assert(adjv.len() == n);
    }
    let mut dist: Vec<Option<usize>> = Vec::new();
    let mut pred: Vec<usize> = Vec::new();
    let mut i: usize = 0;
    while i < n
        invariant
            0 <= i <= n,
            dist@.len() == i,
            pred@.len() == i,
            forall|v: int| 0 <= v < i ==> (#[trigger] dist@[v]) is None,
            forall|v: int| 0 <= v < i ==> (#[trigger] pred@[v]) == 0,
        decreases n - i,
    {
        dist.push(Option::None);
        pred.push(0);
        i += 1;
    }
    vec_set(&mut dist, src, Option::Some(0usize));
    let mut q: Vec<usize> = Vec::new();
    q.push(src);
    proof {
        reveal(bfs_chain_ok);
        reveal(frontier_closed);
        reveal(queue_discovered);
        reveal(queue_sorted);
        reveal(dist_bounded);
        reveal(dist_le_tail);
        assert(discovered_set(dist@) =~= Set::empty().insert(src as int));
        vstd::set_lib::lemma_set_empty_equivalency_len(Set::<int>::empty());
        assert(discovered_set(dist@).len() == 1);
        assert(q@[0] == src);
        assert forall|v: int| 0 <= v < n && (#[trigger] dist@[v]) is Some implies v == src as int
        by {}
        assert forall|u: int| 0 <= u < n && dist@[u] is Some implies in_frontier(q@, 0, u) by {
            assert(u == src as int);
            assert(q@[0] as int == u);
        }
        assert(bfs_state_ok(adjv, src as int, dist@, pred@, q@, 0));
        // the start state is the spec model's start state
        assert(dist@ =~= bfs_init_dist(adjv.len(), src as int));
        assert(pred@ =~= bfs_init_pred(adjv.len()));
        assert(q@ =~= seq![(src as usize)]);
        assert(bfs_loop_spec(adjv, dist@, pred@, q@, 0, adjv.len()) == bfs_spec(
            adjv,
            src as int,
        ));
    }
    let mut h: usize = 0;
    while h < q.len()
        invariant
            n == adjv.len(),
            n == adj@.len(),
            adjv == adj.deep_view(),
            valid_adj(adjv),
            (src as int) < n,
            0 <= h <= q@.len(),
            bfs_state_ok(adjv, src as int, dist@, pred@, q@, h as int),
            bfs_loop_spec(adjv, dist@, pred@, q@, h as nat, (n - h) as nat) == bfs_spec(
                adjv,
                src as int,
            ),
        decreases n - h,
    {
        proof {
            vstd::set_lib::lemma_int_range(0, n as int);
            assert(discovered_set(dist@).subset_of(vstd::set_lib::set_int_range(0, n as int)));
            vstd::set_lib::lemma_len_subset(
                discovered_set(dist@),
                vstd::set_lib::set_int_range(0, n as int),
            );
            assert(q@.len() <= n);
        }
        let ghost dist_in = dist@;
        let ghost pred_in = pred@;
        let ghost q_in = q@;
        bfs_process_system(adj, &mut dist, &mut pred, &mut q, src, h);
        proof {
            // one unfolding of the model consumes this queue entry
            assert(bfs_loop_spec(adjv, dist_in, pred_in, q_in, h as nat, (n - h) as nat)
                == bfs_loop_spec(adjv, dist@, pred@, q@, (h + 1) as nat, (n - h - 1) as nat));
        }
        h += 1;
    }
    proof {
        reveal(frontier_closed);
        reveal(dist_bounded);
        assert(h == q@.len());
        assert forall|u: int, k: int|
            0 <= u < adjv.len() && dist@[u] is Some && 0 <= k < adjv[u].len() implies {
            &&& dist@[(#[trigger] adjv[u][k]) as int] is Some
            &&& dist@[adjv[u][k] as int].unwrap() <= dist@[u].unwrap() + 1
        } by {
            assert(!in_frontier(q@, h as int, u));
        }
        vstd::set_lib::lemma_int_range(0, n as int);
        assert(discovered_set(dist@).subset_of(vstd::set_lib::set_int_range(0, n as int)));
        vstd::set_lib::lemma_len_subset(
            discovered_set(dist@),
            vstd::set_lib::set_int_range(0, n as int),
        );
        // the queue is exhausted: the model's recursion bottoms out here
        assert(bfs_loop_spec(adjv, dist@, pred@, q@, h as nat, (n - h) as nat) == (dist@, pred@));
    }
    (dist, pred)
}

/// Prepending a neighbor of a path's first system keeps it a path.
proof fn lemma_path_prepend(adj: Seq<Seq<usize>>, p: Seq<usize>, u: usize, a: int, b: int)
    requires
        connects(adj, p, a, b),
        (u as int) < adj.len(),
        adj[u as int].contains(p[0]),
    ensures
        connects(adj, seq![u].add(p), u as int, b),
{
    let s = seq![u].add(p);
    assert(s.len() == p.len() + 1);
    assert(s[0] == u);
    assert(s[s.len() - 1] == p[p.len() - 1]);
    assert forall|k: int| 0 <= k < s.len() implies (#[trigger] s[k]) < adj.len() by {
        if k > 0 {
            assert(s[k] == p[k - 1]);
        }
    }
    assert forall|k: int| 0 <= k < s.len() - 1 implies adj[(#[trigger] s[k]) as int].contains(
        s[k + 1],
    ) by {
        if k == 0 {
            assert(s[1] == p[0]);
        } else {
            assert(s[k] == p[k - 1]);
            assert(s[k + 1] == p[k]);
        }
    }
}

/// The hop sequence the predecessor chain spells out for `v`: the chain
/// walked back toward `src` for at most `fuel` steps, in travel order.
pub open spec fn chain_route(pred: Seq<usize>, src: int, v: int, fuel: nat) -> Seq<usize>
    decreases fuel,
{
    if fuel == 0 || v == src {
        Seq::empty()
    } else {
        chain_route(pred, src, pred[v] as int, (fuel - 1) as nat).push(v as usize)
    }
}

/// Walks the predecessor chain back from `v` and returns the hop sequence
/// after the origin: the route ends at `v` and is exactly as long as the
/// found hop distance of `v`.
fn reconstruct_route(
    adj: &Vec<Vec<usize>>,
    dist: &Vec<Option<usize>>,
    pred: &Vec<usize>,
    src: usize,
    v: usize,
) -> (route: Vec<usize>)
    requires
        valid_adj(adj.deep_view()),
        dist@.len() == adj@.len(),
        pred@.len() == adj@.len(),
        (src as int) < adj@.len(),
        (v as int) < adj@.len(),
        v != src,
        dist@[src as int] == Some(0usize),
        dist@[v as int] is Some,
        bfs_chain_ok(adj.deep_view(), src as int, dist@, pred@),
    ensures
        route@.len() == dist@[v as int].unwrap(),
        route@[route@.len() - 1] == v,
        connects(adj.deep_view(), seq![src].add(route@), src as int, v as int),
        route@ == chain_route(pred@, src as int, v as int, dist@[v as int].unwrap() as nat),
{
    let ghost adjv = adj.deep_view();
    proof {
        reveal(bfs_chain_ok);
    }
    let mut route: Vec<usize> = Vec::new();
    let mut crawl: usize = v;
    proof {
        assert(seq![crawl].add(route@) =~= seq![crawl]);
        assert(connects(adjv, seq![crawl].add(route@), crawl as int, v as int));
    }
    while crawl != src
        invariant
            adjv == adj.deep_view(),
            valid_adj(adjv),
            dist@.len() == adjv.len(),
            pred@.len() == adjv.len(),
            (src as int) < adjv.len(),
            (v as int) < adjv.len(),
            (crawl as int) < adjv.len(),
            dist@[src as int] == Some(0usize),
            dist@[crawl as int] is Some,
            dist@[v as int] is Some,
            bfs_chain_ok(adjv, src as int, dist@, pred@),
            route@.len() + dist@[crawl as int].unwrap() == dist@[v as int].unwrap(),
            connects(adjv, seq![crawl].add(route@), crawl as int, v as int),
            chain_route(
                pred@,
                src as int,
                v as int,
                dist@[v as int].unwrap() as nat,
            ) == chain_route(
                pred@,
                src as int,
                crawl as int,
                dist@[crawl as int].unwrap() as nat,
            ).add(route@),
        decreases dist@[crawl as int].unwrap(),
    {
        proof {
            reveal(bfs_chain_ok);
            assert(dist@[crawl as int] is Some && crawl != src);
            assert((pred@[crawl as int] as int) < adjv.len());
        }
        let ghost route0 = route@;
        let ghost crawl0 = crawl;
        let p = pred[crawl];
        route.insert(0, crawl);
        proof {
            assert(route@ =~= seq![crawl0].add(route0));
            assert(seq![p].add(route@) =~= seq![p].add(seq![crawl0].add(route0)));
            lemma_path_prepend(
                adjv,
                seq![crawl0].add(route0),
                p,
                crawl0 as int,
                v as int,
            );
            // one unfolding of the chain absorbs this hop
            let fc = dist@[crawl0 as int].unwrap() as nat;
            assert(chain_route(pred@, src as int, crawl0 as int, fc) == chain_route(
                pred@,
                src as int,
                p as int,
                (fc - 1) as nat,
            ).push(crawl0));
            assert(chain_route(pred@, src as int, p as int, (fc - 1) as nat).push(crawl0).add(
                route0,
            ) =~= chain_route(pred@, src as int, p as int, (fc - 1) as nat).add(route@));
        }
        crawl = p;
    }
    proof {
        assert(route@.len() == dist@[v as int].unwrap());
        reveal(bfs_chain_ok);
        assert(dist@[v as int].unwrap() as int >= 1);
        let s = seq![src].add(route@);
        assert(s[s.len() - 1] == route@[route@.len() - 1]);
        // the walk ended at the source, where the chain is empty
        assert(chain_route(pred@, src as int, crawl as int, dist@[crawl as int].unwrap() as nat)
            == Seq::<usize>::empty());
        assert(Seq::<usize>::empty().add(route@) =~= route@);
    }
    route
}

/// The route one search computes for the ordered pair `(o, d)`, as a
/// function of the adjacency alone: the predecessor chain of the pinned
/// search, or nothing when `d` goes undiscovered or equals `o`.
pub open spec fn route_spec(adj: Seq<Seq<usize>>, o: int, d: int) -> Option<Seq<usize>> {
    let found = bfs_spec(adj, o);
    if o != d && found.0[d] is Some {
        Some(chain_route(found.1, o, d, found.0[d].unwrap() as nat))
    } else {
        None
    }
}

/// The hop sequence a cached slot holds, if any.
pub open spec fn entry_view(e: Option<Vec<usize>>) -> Option<Seq<usize>> {
    match e {
        Some(route) => Some(route@),
        None => None,
    }
}

/// Computes the shortest route from `from` to `to` by one breadth-first
/// search: the hop sequence after the origin, or nothing when the two
/// systems are not connected. Neighbors are searched in gate registration
/// order, so ties resolve the same way on every run.
pub fn get_route(adj: &Vec<Vec<usize>>, from: usize, to: usize) -> (r: Option<Vec<usize>>)
    requires
        valid_adj(adj.deep_view()),
        (from as int) < adj@.len(),
        (to as int) < adj@.len(),
        from != to,
    ensures
        match r {
            Some(route) => {
                &&& route@.len() >= 1
                &&& route@[route@.len() - 1] == to
                &&& connects(adj.deep_view(), seq![from].add(route@), from as int, to as int)
                &&& forall|p: Seq<usize>|
                    #[trigger] connects(adj.deep_view(), p, from as int, to as int)
                        ==> route@.len() + 1 <= p.len()
            },
            None => forall|p: Seq<usize>|
                !#[trigger] connects(adj.deep_view(), p, from as int, to as int),
        },
        entry_view(r) == route_spec(adj.deep_view(), from as int, to as int),
{
    let ghost adjv = adj.deep_view();
    let (dist, pred) = bfs(adj, from);
    let reached = match dist[to] {
        Option::Some(_) => true,
        Option::None => false,
    };
    if reached {
        let route = reconstruct_route(adj, &dist, &pred, from, to);
        proof {
            assert forall|p: Seq<usize>|
                #[trigger] connects(adjv, p, from as int, to as int) implies route@.len() + 1
                <= p.len() by {
                lemma_bfs_minimal(adjv, from as int, dist@, p, to as int);
            }
        }
        Option::Some(route)
    } else {
        proof {
            assert forall|p: Seq<usize>|
                !#[trigger] connects(adjv, p, from as int, to as int) by {
                if connects(adjv, p, from as int, to as int) {
                    lemma_bfs_minimal(adjv, from as int, dist@, p, to as int);
                }
            }
        }
        Option::None
    }
}

/// What one cached slot of the route table must hold for the ordered pair
/// `(o, d)`: nothing on the diagonal; otherwise a shortest hop sequence to
/// `d` when the pair is connected, and nothing when it is not.
pub open spec fn stored_entry_ok(
    adj: Seq<Seq<usize>>,
    e: Option<Vec<usize>>,
    o: int,
    d: int,
) -> bool {
    if o == d {
        e is None
    } else {
        match e {
            Some(route) => {
                &&& route@.len() >= 1
                &&& route@[route@.len() - 1] as int == d
                &&& connects(adj, seq![(o as usize)].add(route@), o, d)
                &&& forall|p: Seq<usize>|
                    #[trigger] connects(adj, p, o, d) ==> route@.len() + 1 <= p.len()
            },
            None => forall|p: Seq<usize>| !#[trigger] connects(adj, p, o, d),
        }
    }
}

/// The cached route table: for every ordered pair of distinct systems, the
/// shortest hop sequence between them, or no entry when they are not
/// connected. Built once after the galaxy is assembled; read-only afterward.
pub struct GalaxyMap {
    pub routes: Vec<Vec<Option<Vec<usize>>>>,
}

impl GalaxyMap {
    /// The table is square with one row and one column per system.
    pub open spec fn dims_ok(self, n: int) -> bool {
        &&& self.routes@.len() == n
        &&& forall|o: int| 0 <= o < n ==> (#[trigger] self.routes@[o])@.len() == n
    }

    /// The cached hop sequence for `(o, d)`, if any.
    pub open spec fn route_of(self, o: int, d: int) -> Option<Seq<usize>> {
        match self.routes@[o]@[d] {
            Some(route) => Some(route@),
            None => None,
        }
    }

    /// Every slot holds exactly the route the pinned search computes: the
    /// whole table is a function of the adjacency.
    pub open spec fn determined_by(self, adj: Seq<Seq<usize>>) -> bool {
        &&& self.dims_ok(adj.len() as int)
        &&& forall|o: int, d: int|
            0 <= o < adj.len() && 0 <= d < adj.len() ==> entry_view(
                #[trigger] self.routes@[o]@[d],
            ) == route_spec(adj, o, d)
    }

    /// Every slot of the table holds what `stored_entry_ok` demands.
    pub open spec fn consistent_with(self, adj: Seq<Seq<usize>>) -> bool {
        &&& self.dims_ok(adj.len() as int)
        &&& forall|o: int, d: int|
            0 <= o < adj.len() && 0 <= d < adj.len() ==> stored_entry_ok(
                adj,
                #[trigger] self.routes@[o]@[d],
                o,
                d,
            )
    }

    /// Looks up the cached route from `o` to `d`.
    pub fn lookup(&self, o: usize, d: usize) -> (r: &Option<Vec<usize>>)
        requires
            self.dims_ok(self.routes@.len() as int),
            (o as int) < self.routes@.len(),
            (d as int) < self.routes@.len(),
        ensures
            *r == self.routes@[o as int]@[d as int],
    {
        let row = &self.routes[o];
        &row[d]
    }
}

/// Builds the route table: one breadth-first search per origin system, over
/// adjacency lists in gate registration order.
pub fn generate_map_pathfinding_system(adj: &Vec<Vec<usize>>) -> (map: GalaxyMap)
    requires
        valid_adj(adj.deep_view()),
    ensures
        map.consistent_with(adj.deep_view()),
        map.determined_by(adj.deep_view()),
{
    let ghost adjv = adj.deep_view();
    let n = adj.len();
    let mut routes: Vec<Vec<Option<Vec<usize>>>> = Vec::new();
    let mut o: usize = 0;
    while o < n
        invariant
            adjv == adj.deep_view(),
            valid_adj(adjv),
            n == adjv.len(),
            n == adj@.len(),
            0 <= o <= n,
            routes@.len() == o,
            forall|o2: int| 0 <= o2 < o ==> (#[trigger] routes@[o2])@.len() == n,
            forall|o2: int, d2: int|
                0 <= o2 < o && 0 <= d2 < n ==> stored_entry_ok(
                    adjv,
                    #[trigger] routes@[o2]@[d2],
                    o2,
                    d2,
                ),
            forall|o2: int, d2: int|
                0 <= o2 < o && 0 <= d2 < n ==> entry_view(#[trigger] routes@[o2]@[d2])
                    == route_spec(adjv, o2, d2),
        decreases n - o,
    {
        let mut row: Vec<Option<Vec<usize>>> = Vec::new();
        let mut d: usize = 0;
        while d < n
            invariant
                adjv == adj.deep_view(),
                valid_adj(adjv),
                n == adjv.len(),
                n == adj@.len(),
                0 <= d <= n,
                (o as int) < n,
                row@.len() == d,
                forall|d2: int|
                    0 <= d2 < d ==> stored_entry_ok(adjv, #[trigger] row@[d2], o as int, d2),
                forall|d2: int|
                    0 <= d2 < d ==> entry_view(#[trigger] row@[d2]) == route_spec(
                        adjv,
                        o as int,
                        d2,
                    ),
            decreases n - d,
        {
            if o == d {
                row.push(Option::None);
            } else {
                row.push(get_route(adj, o, d));
            }
            d += 1;
        }
        routes.push(row);
        o += 1;
    }
    GalaxyMap { routes }
}

/// Directly connected systems get a one-hop route: the cached entry for an
/// adjacent pair is exactly the destination itself.
pub proof fn lemma_direct_route_one_hop(map: GalaxyMap, adj: Seq<Seq<usize>>, o: usize, d: usize)
    requires
        map.consistent_with(adj),
        (o as int) < adj.len(),
        (d as int) < adj.len(),
        o != d,
        adj[o as int].contains(d),
    ensures
        map.route_of(o as int, d as int) == Some(seq![d]),
{
    let o = o as int;
    let d = d as int;
    let p0 = seq![(o as usize), (d as usize)];
    assert(p0.len() == 2);
    assert(p0[0] as int == o && p0[1] as int == d);
    assert(connects(adj, p0, o, d));
    assert(stored_entry_ok(adj, map.routes@[o]@[d], o, d));
    match map.routes@[o]@[d] {
        Some(route) => {
            assert(route@.len() + 1 <= p0.len());
            assert(route@.len() == 1);
            assert(route@[0] as int == d);
            assert(route@ =~= seq![(d as usize)]);
        },
        None => {
            assert(!connects(adj, p0, o, d));
        },
    }
}

/// Idempotence of the route table: any two tables built from the same
/// adjacency hold identical hop sequences for every ordered pair, ties
/// included — rebuilding the table can change nothing.
pub proof fn lemma_route_table_idempotent(
    m1: GalaxyMap,
    m2: GalaxyMap,
    adj: Seq<Seq<usize>>,
    o: int,
    d: int,
)
    requires
        m1.determined_by(adj),
        m2.determined_by(adj),
        0 <= o < adj.len(),
        0 <= d < adj.len(),
    ensures
        entry_view(m1.routes@[o]@[d]) == entry_view(m2.routes@[o]@[d]),
        m1.route_of(o, d) == m2.route_of(o, d),
{
}

/// `adj` is the adjacency the galaxy's gate maps describe, in registration
/// order.
pub open spec fn matches_galaxy(adj: Seq<Seq<usize>>, galaxy: Galaxy) -> bool {
    &&& adj.len() == galaxy.n()
    &&& forall|s: int|
        0 <= s < galaxy.n() ==> (#[trigger] adj[s]).len() == galaxy.systems@[s].gates@.len()
    &&& forall|s: int, i: int|
        0 <= s < galaxy.n() && 0 <= i < galaxy.systems@[s].gates@.len() ==> (#[trigger] adj[s][i])
            == galaxy.systems@[s].gates@[i].dest
}

/// Reads the adjacency lists off the galaxy's gate maps, destination by
/// destination in registration order.
pub fn galaxy_adjacency(galaxy: &Galaxy) -> (adj: Vec<Vec<usize>>)
    requires
        galaxy.wf(),
    ensures
        matches_galaxy(adj.deep_view(), *galaxy),
        valid_adj(adj.deep_view()),
        adj.deep_view() == adjacency_of(*galaxy),
{
    let ghost gv = *galaxy;
    let n = galaxy.systems.len();
    let mut adj: Vec<Vec<usize>> = Vec::new();
    let mut s: usize = 0;
    while s < n
        invariant
            gv == *galaxy,
            gv.wf(),
            n == gv.n(),
            0 <= s <= n,
            adj@.len() == s,
            forall|s2: int|
                0 <= s2 < s ==> (#[trigger] adj@[s2])@.len() == gv.systems@[s2].gates@.len(),
            forall|s2: int, i: int|
                0 <= s2 < s && 0 <= i < gv.systems@[s2].gates@.len() ==> (
                #[trigger] adj@[s2]@[i]) == gv.systems@[s2].gates@[i].dest,
        decreases n - s,
    {
        let sys = &galaxy.systems[s];
        let m = sys.gates.len();
        let mut row: Vec<usize> = Vec::new();
        let mut i: usize = 0;
        while i < m
            invariant
                gv == *galaxy,
                gv.wf(),
                (s as int) < gv.n(),
                sys == &galaxy.systems[s as int],
                m == sys.gates@.len(),
                0 <= i <= m,
                row@.len() == i,
                forall|i2: int| 0 <= i2 < i ==> (#[trigger] row@[i2]) == sys.gates@[i2].dest,
            decreases m - i,
        {
            row.push(sys.gates[i].dest);
            i += 1;
        }
        adj.push(row);
        s += 1;
    }
    proof {
        // bridge the flat views to the nested one
        assert forall|s2: int| 0 <= s2 < n implies (#[trigger] adj.deep_view()[s2]) =~= adj@[s2]@
        by {}
        assert forall|i: int, j: int|
            0 <= i < adj.deep_view().len() && 0 <= j < adj.deep_view()[i].len() implies (
        #[trigger] adj.deep_view()[i][j]) < adj.deep_view().len() by {
            assert(adj.deep_view()[i][j] == gv.systems@[i].gates@[j].dest);
            assert(gv.entry_ok(i, gv.systems@[i].gates@[j]));
        }
        lemma_matches_galaxy_unique(adj.deep_view(), gv);
    }
    adj
}

/// A registered adjacency edge always has a gate map entry behind it.
pub proof fn lemma_adjacent_has_gate(adj: Seq<Seq<usize>>, galaxy: Galaxy, s: int, d: usize)
    requires
        galaxy.wf(),
        matches_galaxy(adj, galaxy),
        0 <= s < adj.len(),
        adj[s].contains(d),
    ensures
        galaxy.systems@[s].has_gate_to(d as int),
{
    let i = choose|i: int| 0 <= i < adj[s].len() && adj[s][i] == d;
    assert(galaxy.systems@[s].gates@[i].dest == d);
}

/// Dropping the first system of a walk of two or more leaves a walk.
pub proof fn lemma_path_tail(adj: Seq<Seq<usize>>, p: Seq<usize>)
    requires
        is_path(adj, p),
        p.len() >= 2,
    ensures
        is_path(adj, p.skip(1)),
{
    let q = p.skip(1);
    assert(q.len() == p.len() - 1);
    assert forall|k: int| 0 <= k < q.len() implies (#[trigger] q[k]) < adj.len() by {
        assert(q[k] == p[k + 1]);
    }
    assert forall|k: int| 0 <= k < q.len() - 1 implies adj[(#[trigger] q[k]) as int].contains(
        q[k + 1],
    ) by {
        assert(q[k] == p[k + 1]);
        assert(q[k + 1] == p[k + 2]);
    }
}

/// The adjacency the galaxy's gate maps describe, as a function of the
/// galaxy alone.
pub open spec fn adjacency_of(galaxy: Galaxy) -> Seq<Seq<usize>> {
    Seq::new(
        galaxy.n() as nat,
        |s: int|
            Seq::new(
                galaxy.systems@[s].gates@.len(),
                |i: int| galaxy.systems@[s].gates@[i].dest,
            ),
    )
}

/// Only one adjacency matches a galaxy: whatever `galaxy_adjacency` built
/// equals `adjacency_of`.
pub proof fn lemma_matches_galaxy_unique(adj: Seq<Seq<usize>>, galaxy: Galaxy)
    requires
        matches_galaxy(adj, galaxy),
    ensures
        adj == adjacency_of(galaxy),
{
    assert forall|s: int| 0 <= s < galaxy.n() implies (#[trigger] adj[s]) =~= adjacency_of(
        galaxy,
    )[s] by {}
    assert(adj =~~= adjacency_of(galaxy));
}

/// A well-formed galaxy describes a valid adjacency.
pub proof fn lemma_adjacency_of_valid(galaxy: Galaxy)
    requires
        galaxy.wf(),
    ensures
        valid_adj(adjacency_of(galaxy)),
        matches_galaxy(adjacency_of(galaxy), galaxy),
{
    let adj = adjacency_of(galaxy);
    assert forall|i: int, j: int|
        0 <= i < adj.len() && 0 <= j < adj[i].len() implies (#[trigger] adj[i][j]) < adj.len() by {
        assert(galaxy.entry_ok(i, galaxy.systems@[i].gates@[j]));
    }
}

} // verus!
