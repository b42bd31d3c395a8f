use crate::graph::{Graph, GraphModel, edge_weight, has_edge, symmetric};
use crate::strmap::StrMap;
use vstd::prelude::*;

verus! {

/// A walk through the graph: at least the starting vertex, and an edge
/// between every pair of consecutive vertices.
pub open spec fn is_path(m: GraphModel, p: Seq<Seq<char>>) -> bool {
    p.len() >= 1 && forall|i: int| 1 <= i < p.len() ==> has_edge(m, p[i - 1], #[trigger] p[i])
}

/// The summed edge weights along a path.
pub open spec fn path_cost(m: GraphModel, p: Seq<Seq<char>>) -> int
    decreases p.len(),
{
    if p.len() <= 1 {
        0
    } else {
        path_cost(m, p.drop_last()) + edge_weight(m, p[p.len() - 2], p.last())
    }
}

/// A path from `s` to `v`.
pub open spec fn connects(m: GraphModel, p: Seq<Seq<char>>, s: Seq<char>, v: Seq<char>) -> bool {
    is_path(m, p) && p.first() == s && p.last() == v
}

/// Every step of the path records the vertex before it as predecessor.
pub open spec fn follows_prev(prev: Map<Seq<char>, Option<String>>, p: Seq<Seq<char>>) -> bool {
    forall|i: int|
        1 <= i < p.len() ==> prev.contains_key(#[trigger] p[i]) && (prev[p[i]] matches Some(u)
            && u@ == p[i - 1])
}

spec fn seq_sum(s: Seq<usize>) -> nat
    decreases s.len(),
{
    if s.len() == 0 {
        0
    } else {
        (seq_sum(s.drop_last()) + s.last()) as nat
    }
}

proof fn lemma_seq_sum_update(s: Seq<usize>, i: int, v: usize)
    requires
        0 <= i < s.len(),
    ensures
        seq_sum(s.update(i, v)) + s[i] == seq_sum(s) + v,
    decreases s.len(),
{
    let t = s.update(i, v);
    if i == s.len() - 1 {
        assert(t.drop_last() =~= s.drop_last());
    } else {
        assert(t.drop_last() =~= s.drop_last().update(i, v));
        lemma_seq_sum_update(s.drop_last(), i, v);
    }
}

/// The heap keeps entries for known vertices, never below their recorded
/// distance, and always below the sentinel.
spec fn inv_heap(dist: Map<Seq<char>, usize>, heap: Seq<(usize, String)>) -> bool {
    forall|k: int|
        0 <= k < heap.len() ==> {
            &&& dist.contains_key((#[trigger] heap[k]).1@)
            &&& heap[k].0 >= dist[heap[k].1@]
            &&& heap[k].0 < usize::MAX
        }
}

/// All edges out of `u` have been relaxed against its recorded distance.
spec fn relaxed(m: GraphModel, dist: Map<Seq<char>, usize>, u: Seq<char>) -> bool {
    forall|b: Seq<char>| #[trigger]
        has_edge(m, u, b) ==> dist[u] + edge_weight(m, u, b) >= usize::MAX || (dist.contains_key(b)
            && dist[b] <= dist[u] + edge_weight(m, u, b))
}

/// The frontier holds an entry for `u` at exactly distance `d0`.
spec fn has_entry(heap: Seq<(usize, String)>, d0: usize, u: Seq<char>) -> bool {
    exists|k: int| 0 <= k < heap.len() && (#[trigger] heap[k]).0 == d0 && heap[k].1@ == u
}

/// Every finite-distance vertex either still has a frontier entry at its
/// recorded distance or is fully relaxed.
spec fn inv_settled(m: GraphModel, dist: Map<Seq<char>, usize>, heap: Seq<(usize, String)>) -> bool {
    forall|u: Seq<char>|
        (#[trigger] dist.contains_key(u)) && dist[u] < usize::MAX ==> has_entry(heap, dist[u], u)
            || relaxed(m, dist, u)
}

/// `inv_settled`, with the vertex under relaxation excepted.
spec fn inv_settled_except(
    m: GraphModel,
    dist: Map<Seq<char>, usize>,
    heap: Seq<(usize, String)>,
    ex: Seq<char>,
) -> bool {
    forall|u: Seq<char>|
        (#[trigger] dist.contains_key(u)) && dist[u] < usize::MAX && u != ex ==> has_entry(
            heap,
            dist[u],
            u,
        ) || relaxed(m, dist, u)
}

/// Predecessor entries are set exactly for the vertices found closer than
/// the sentinel, the source excepted.
spec fn inv_prev_presence(
    s: Seq<char>,
    dist: Map<Seq<char>, usize>,
    prev: Map<Seq<char>, Option<String>>,
) -> bool {
    forall|v: Seq<char>| #[trigger]
        prev.contains_key(v) ==> ((prev[v] is Some) <==> (dist.contains_key(v) && dist[v]
            < usize::MAX && v != s))
}

/// Each predecessor link lies on an edge, never overshoots the recorded
/// distance, and is either exact and older than its target or strictly
/// superseded.
spec fn inv_prev_links(
    m: GraphModel,
    dist: Map<Seq<char>, usize>,
    prev: Map<Seq<char>, Option<String>>,
    stamp: Map<Seq<char>, nat>,
) -> bool {
    forall|v: Seq<char>| #[trigger]
        prev.contains_key(v) ==> match prev[v] {
            Some(u) => {
                &&& has_edge(m, u@, v)
                &&& dist.contains_key(u@)
                &&& dist.contains_key(v)
                &&& dist[u@] + edge_weight(m, u@, v) <= dist[v]
                &&& stamp.contains_key(u@)
                &&& stamp.contains_key(v)
                &&& (dist[v] > dist[u@] + edge_weight(m, u@, v) || stamp[u@] < stamp[v])
            },
            None => true,
        }
}

/// Every finite-distance vertex carries a stamp older than the clock.
spec fn inv_stamps(dist: Map<Seq<char>, usize>, stamp: Map<Seq<char>, nat>, tick: nat) -> bool {
    forall|v: Seq<char>| #[trigger]
        dist.contains_key(v) && dist[v] < usize::MAX ==> stamp.contains_key(v) && stamp[v] < tick
}

/// The facts holding when the frontier has drained: exact, stamped
/// predecessor links and fully relaxed distances.
spec fn final_state(
    m: GraphModel,
    s: Seq<char>,
    dist: Map<Seq<char>, usize>,
    prev: Map<Seq<char>, Option<String>>,
    stamp: Map<Seq<char>, nat>,
) -> bool {
    &&& symmetric(m)
    &&& (forall|k: Seq<char>| #[trigger] dist.contains_key(k) <==> (m.contains_key(k) || k == s))
    &&& (forall|k: Seq<char>| #[trigger] prev.contains_key(k) <==> m.contains_key(k))
    &&& dist.contains_key(s)
    &&& dist[s] == 0
    &&& inv_prev_presence(s, dist, prev)
    &&& (forall|v: Seq<char>| #[trigger]
        prev.contains_key(v) ==> match prev[v] {
            Some(u) => {
                &&& has_edge(m, u@, v)
                &&& dist.contains_key(u@)
                &&& dist[u@] < usize::MAX
                &&& stamp.contains_key(u@)
                &&& stamp.contains_key(v)
                &&& dist[v] == dist[u@] + edge_weight(m, u@, v)
                &&& stamp[u@] < stamp[v]
            },
            None => true,
        })
    &&& (forall|v: Seq<char>| #[trigger]
        dist.contains_key(v) && dist[v] < usize::MAX ==> stamp.contains_key(v))
}

/// From the drained state, following predecessor links from any vertex
/// found closer than the sentinel yields a path from the source whose cost
/// is exactly the recorded distance.
proof fn lemma_chain(
    m: GraphModel,
    s: Seq<char>,
    dist: Map<Seq<char>, usize>,
    prev: Map<Seq<char>, Option<String>>,
    stamp: Map<Seq<char>, nat>,
    v: Seq<char>,
)
    requires
        final_state(m, s, dist, prev, stamp),
        dist.contains_key(v),
        dist[v] < usize::MAX,
    ensures
        exists|p: Seq<Seq<char>>|
            connects(m, p, s, v) && path_cost(m, p) == dist[v] && follows_prev(prev, p),
    decreases (if stamp.contains_key(v) {
        stamp[v]
    } else {
        0
    }),
{
    if v == s {
        let p = seq![s];
        assert(connects(m, p, s, v));
        assert(path_cost(m, p) == 0);
        assert(follows_prev(prev, p));
        assert(path_cost(m, p) == dist[v]);
    } else {
        assert(m.contains_key(v));
        assert(prev.contains_key(v));
        assert(prev[v] is Some);
        let u = prev[v]->0;
        assert(dist[v] == dist[u@] + edge_weight(m, u@, v));
        assert(dist[u@] < usize::MAX);
        assert(stamp[u@] < stamp[v]);
        lemma_chain(m, s, dist, prev, stamp, u@);
        let p0 = choose|p0: Seq<Seq<char>>|
            connects(m, p0, s, u@) && path_cost(m, p0) == dist[u@] && follows_prev(prev, p0);
        let p = p0.push(v);
        assert(p.drop_last() =~= p0);
        assert(p.last() == v && p[p.len() - 2] == u@);
        assert(is_path(m, p)) by {
            assert forall|i: int| 1 <= i < p.len() implies has_edge(m, p[i - 1], #[trigger] p[i]) by {
                if i < p0.len() {
                    assert(p[i] == p0[i] && p[i - 1] == p0[i - 1]);
                } else {
                    assert(p[i] == v && p[i - 1] == u@);
                }
            }
        }
        assert(path_cost(m, p) == path_cost(m, p0) + edge_weight(m, u@, v));
        assert(connects(m, p, s, v));
        assert(follows_prev(prev, p)) by {
            assert forall|i: int| 1 <= i < p.len() implies prev.contains_key(#[trigger] p[i]) && (
            prev[p[i]] matches Some(uu) && uu@ == p[i - 1]) by {
                if i < p0.len() {
                    assert(p[i] == p0[i] && p[i - 1] == p0[i - 1]);
                } else {
                    assert(p[i] == v && p[i - 1] == u@);
                }
            }
        }
    }
}

/// From the drained state, no path from the source to `v` costs less than
/// the recorded distance.
proof fn lemma_no_shorter(
    m: GraphModel,
    s: Seq<char>,
    dist: Map<Seq<char>, usize>,
    p: Seq<Seq<char>>,
    v: Seq<char>,
)
    requires
        symmetric(m),
        forall|k: Seq<char>| #[trigger] dist.contains_key(k) <==> (m.contains_key(k) || k == s),
        dist.contains_key(s),
        dist[s] == 0,
        forall|u: Seq<char>| #[trigger]
            dist.contains_key(u) && dist[u] < usize::MAX ==> relaxed(m, dist, u),
        connects(m, p, s, v),
        dist.contains_key(v),
    ensures
        path_cost(m, p) >= dist[v],
    decreases p.len(),
{
    if p.len() == 1 {
        assert(v == s);
    } else {
        let p0 = p.drop_last();
        let u = p[p.len() - 2];
        assert(has_edge(m, u, v));
        assert(is_path(m, p0)) by {
            assert forall|i: int| 1 <= i < p0.len() implies has_edge(m, p0[i - 1], #[trigger] p0[i]) by {
                assert(p0[i] == p[i] && p0[i - 1] == p[i - 1]);
            }
        }
        assert(connects(m, p0, s, u));
        assert(dist.contains_key(u)) by {
            if p0.len() == 1 {
                assert(u == s);
            } else {
                assert(has_edge(m, p[p.len() - 3], u));
                assert(has_edge(m, u, p[p.len() - 3]));
            }
        }
        lemma_no_shorter(m, s, dist, p0, u);
        let w = edge_weight(m, u, v);
        assert(path_cost(m, p) == path_cost(m, p0) + w);
        if dist[u] < usize::MAX {
            assert(relaxed(m, dist, u));
            if dist[u] + w >= usize::MAX {
                assert(path_cost(m, p) >= dist[u] + w >= usize::MAX >= dist[v]);
            } else {
                assert(dist[v] <= dist[u] + w);
            }
        } else {
            assert(path_cost(m, p0) >= usize::MAX);
            assert(path_cost(m, p) >= usize::MAX >= dist[v]);
        }
    }
}

/// An entry not at the removed position survives a swap-removal.
proof fn lemma_pop_preserves_entry(
    h0: Seq<(usize, String)>,
    k: int,
    h1: Seq<(usize, String)>,
    d0: usize,
    u: Seq<char>,
)
    requires
        0 <= k < h0.len(),
        h1 == h0.update(k, h0.last()).drop_last(),
        exists|i: int| 0 <= i < h0.len() && i != k && (#[trigger] h0[i]).0 == d0 && h0[i].1@ == u,
    ensures
        exists|i: int| 0 <= i < h1.len() && (#[trigger] h1[i]).0 == d0 && h1[i].1@ == u,
{
    let i = choose|i: int|
        0 <= i < h0.len() && i != k && (#[trigger] h0[i]).0 == d0 && h0[i].1@ == u;
    if i == h0.len() - 1 {
        assert(h1[k] == h0[i]);
    } else {
        assert(h1[i] == h0[i]);
    }
}

/// Removes and returns a frontier entry of minimal tentative distance.
fn extract_min(heap: &mut Vec<(usize, String)>) -> (r: (usize, String))
    requires
        old(heap)@.len() > 0,
    ensures
        exists|k: int|
            0 <= k < old(heap)@.len() && #[trigger] old(heap)@[k] == r && final(heap)@ == old(
                heap,
            )@.update(k, old(heap)@.last()).drop_last(),
        final(heap)@.len() == old(heap)@.len() - 1,
        forall|i: int| 0 <= i < old(heap)@.len() ==> r.0 <= (#[trigger] old(heap)@[i]).0,
{
    let n = heap.len();
    let mut best: usize = 0;
    let mut i: usize = 1;
    while i < n
        invariant
            *heap == *old(heap),
            n == heap@.len(),
            1 <= i <= n,
            0 <= best < i,
            forall|t: int| 0 <= t < i ==> heap@[best as int].0 <= (#[trigger] heap@[t]).0,
        decreases n - i,
    {
        if heap[i].0 < heap[best].0 {
            best = i;
        }
        i += 1;
    }
    let e = heap.swap_remove(best);
    proof {
        assert(old(heap)@[best as int] == e);
    }
    e
}

/// Removing one frontier entry keeps the frontier sound; every other
/// vertex keeps its witness, and on a stale removal so does the popped one.
proof fn lemma_pop_settled(
    m: GraphModel,
    dist: Map<Seq<char>, usize>,
    h0: Seq<(usize, String)>,
    k: int,
    h1: Seq<(usize, String)>,
    d: usize,
    a: Seq<char>,
    stale: bool,
)
    requires
        inv_settled(m, dist, h0),
        inv_heap(dist, h0),
        0 <= k < h0.len(),
        h0[k].0 == d,
        h0[k].1@ == a,
        h1 == h0.update(k, h0.last()).drop_last(),
        stale ==> dist.contains_key(a) && d > dist[a],
    ensures
        inv_heap(dist, h1),
        inv_settled_except(m, dist, h1, a),
        stale ==> inv_settled(m, dist, h1),
{
    assert forall|i: int| 0 <= i < h1.len() implies {
        &&& dist.contains_key((#[trigger] h1[i]).1@)
        &&& h1[i].0 >= dist[h1[i].1@]
        &&& h1[i].0 < usize::MAX
    } by {
        assert(h1[i] == h0[i] || h1[i] == h0[h0.len() - 1]);
    }
    assert forall|u: Seq<char>|
        (#[trigger] dist.contains_key(u)) && dist[u] < usize::MAX && (u != a || (stale
            && d > dist[a])) implies has_entry(h1, dist[u], u) || relaxed(m, dist, u) by {
        if has_entry(h0, dist[u], u) {
            let kk = choose|kk: int|
                0 <= kk < h0.len() && (#[trigger] h0[kk]).0 == dist[u] && h0[kk].1@ == u;
            if kk == k {
                assert(u == a && dist[u] == d);
                assert(false);
            }
            lemma_pop_preserves_entry(h0, k, h1, dist[u], u);
        }
    }
}

/// One successful relaxation of the edge (a, b): the recorded distance of
/// `b` drops to `alt`, its predecessor becomes `a`, a fresh frontier entry
/// and stamp are issued, and every invariant of the search survives.
proof fn lemma_relax_update(
    m: GraphModel,
    s: Seq<char>,
    old_dist: Map<Seq<char>, usize>,
    old_prev: Map<Seq<char>, Option<String>>,
    old_heap: Seq<(usize, String)>,
    old_stamp: Map<Seq<char>, nat>,
    old_tick: nat,
    a: Seq<char>,
    a_str: String,
    b: Seq<char>,
    b_str: String,
    w: usize,
    d: usize,
    alt: usize,
    new_dist: Map<Seq<char>, usize>,
    new_prev: Map<Seq<char>, Option<String>>,
    new_heap: Seq<(usize, String)>,
    new_stamp: Map<Seq<char>, nat>,
    new_tick: nat,
)
    requires
        symmetric(m),
        forall|k: Seq<char>| #[trigger] old_prev.contains_key(k) <==> m.contains_key(k),
        forall|k: Seq<char>| #[trigger] old_dist.contains_key(k) <==> (m.contains_key(k) || k == s),
        old_dist.contains_key(s),
        old_dist[s] == 0,
        inv_prev_presence(s, old_dist, old_prev),
        inv_prev_links(m, old_dist, old_prev, old_stamp),
        inv_stamps(old_dist, old_stamp, old_tick),
        inv_heap(old_dist, old_heap),
        inv_settled_except(m, old_dist, old_heap, a),
        has_edge(m, a, b),
        edge_weight(m, a, b) == w,
        old_dist.contains_key(a),
        old_dist[a] == d,
        d < usize::MAX,
        old_dist.contains_key(b),
        alt == d + w,
        alt < usize::MAX,
        alt < old_dist[b],
        a_str@ == a,
        b_str@ == b,
        new_dist == old_dist.insert(b, alt),
        new_prev == old_prev.insert(b, Some(a_str)),
        new_heap == old_heap.push((alt, b_str)),
        new_stamp == old_stamp.insert(b, old_tick),
        new_tick == old_tick + 1,
    ensures
        b != a,
        b != s,
        forall|k: Seq<char>| #[trigger] new_prev.contains_key(k) <==> m.contains_key(k),
        forall|k: Seq<char>| #[trigger] new_dist.contains_key(k) <==> (m.contains_key(k) || k == s),
        new_dist.contains_key(s),
        new_dist[s] == 0,
        new_dist.contains_key(a),
        new_dist[a] == d,
        inv_prev_presence(s, new_dist, new_prev),
        inv_prev_links(m, new_dist, new_prev, new_stamp),
        inv_stamps(new_dist, new_stamp, new_tick),
        inv_heap(new_dist, new_heap),
        inv_settled_except(m, new_dist, new_heap, a),
        forall|u: Seq<char>| #[trigger]
            old_dist.contains_key(u) ==> new_dist.contains_key(u) && new_dist[u] <= old_dist[u],
{
    assert(b != a);
    assert(b != s);
    assert(m.contains_key(b)) by {
        assert(has_edge(m, b, a));
    }
    assert(inv_prev_presence(s, new_dist, new_prev)) by {
        assert forall|v: Seq<char>| #[trigger] new_prev.contains_key(v) implies ((new_prev[v]
            is Some) <==> (new_dist.contains_key(v) && new_dist[v] < usize::MAX && v != s)) by {
            if v != b {
                assert(new_prev[v] == old_prev[v]);
            }
        }
    }
    assert(inv_prev_links(m, new_dist, new_prev, new_stamp)) by {
        assert forall|v: Seq<char>| #[trigger] new_prev.contains_key(v) implies match new_prev[v] {
            Some(u) => {
                &&& has_edge(m, u@, v)
                &&& new_dist.contains_key(u@)
                &&& new_dist.contains_key(v)
                &&& new_dist[u@] + edge_weight(m, u@, v) <= new_dist[v]
                &&& new_stamp.contains_key(u@)
                &&& new_stamp.contains_key(v)
                &&& (new_dist[v] > new_dist[u@] + edge_weight(m, u@, v) || new_stamp[u@]
                    < new_stamp[v])
            },
            None => true,
        } by {
            if v == b {
                assert(new_prev[v] == Some(a_str));
                assert(new_dist[b] == alt == d + w);
                assert(old_stamp.contains_key(a) && old_stamp[a] < old_tick);
                assert(new_stamp[a] == old_stamp[a]);
                assert(new_stamp[b] == old_tick);
            } else {
                assert(new_prev[v] == old_prev[v]);
                match old_prev[v] {
                    Some(u) => {
                        assert(old_dist[u@] + edge_weight(m, u@, v) <= old_dist[v]);
                        if u@ == b {
                            assert(new_dist[u@] == alt < old_dist[b]);
                            assert(new_dist[v] == old_dist[v]);
                            assert(new_dist[v] > new_dist[u@] + edge_weight(m, u@, v));
                        } else {
                            assert(new_dist[u@] == old_dist[u@]);
                            assert(new_dist[v] == old_dist[v]);
                            assert(new_stamp[u@] == old_stamp[u@]);
                            assert(new_stamp[v] == old_stamp[v]);
                        }
                    },
                    None => {},
                }
            }
        }
    }
    assert(inv_stamps(new_dist, new_stamp, new_tick)) by {
        assert forall|v: Seq<char>| #[trigger]
            new_dist.contains_key(v) && new_dist[v] < usize::MAX implies new_stamp.contains_key(v)
            && new_stamp[v] < new_tick by {
            if v != b {
                assert(new_dist[v] == old_dist[v]);
            }
        }
    }
    assert(inv_heap(new_dist, new_heap)) by {
        assert forall|k: int| 0 <= k < new_heap.len() implies {
            &&& new_dist.contains_key((#[trigger] new_heap[k]).1@)
            &&& new_heap[k].0 >= new_dist[new_heap[k].1@]
            &&& new_heap[k].0 < usize::MAX
        } by {
            if k < old_heap.len() {
                assert(new_heap[k] == old_heap[k]);
                let u = old_heap[k].1@;
                if u == b {
                    assert(new_dist[u] == alt <= old_dist[u]);
                } else {
                    assert(new_dist[u] == old_dist[u]);
                }
            } else {
                assert(new_heap[k] == (alt, b_str));
            }
        }
    }
    assert(inv_settled_except(m, new_dist, new_heap, a)) by {
        assert forall|u: Seq<char>|
            (#[trigger] new_dist.contains_key(u)) && new_dist[u] < usize::MAX && u
                != a implies has_entry(new_heap, new_dist[u], u) || relaxed(m, new_dist, u) by {
            if u == b {
                assert(new_heap[new_heap.len() - 1] == (alt, b_str));
                assert(has_entry(new_heap, new_dist[u], u));
            } else {
                assert(new_dist[u] == old_dist[u]);
                if has_entry(old_heap, old_dist[u], u) {
                    let kk = choose|kk: int|
                        0 <= kk < old_heap.len() && (#[trigger] old_heap[kk]).0 == old_dist[u]
                            && old_heap[kk].1@ == u;
                    assert(new_heap[kk] == old_heap[kk]);
                    assert(has_entry(new_heap, new_dist[u], u));
                } else if relaxed(m, old_dist, u) {
                    assert forall|bb: Seq<char>| #[trigger] has_edge(m, u, bb) implies new_dist[u]
                        + edge_weight(m, u, bb) >= usize::MAX || (new_dist.contains_key(bb)
                        && new_dist[bb] <= new_dist[u] + edge_weight(m, u, bb)) by {
                        if bb == b {
                            assert(old_dist[u] + edge_weight(m, u, bb) >= usize::MAX || new_dist[bb]
                                == alt < old_dist[b]);
                        } else {
                            assert(new_dist[bb] == old_dist[bb] || !old_dist.contains_key(bb));
                        }
                    }
                }
            }
        }
    }
}

/// Dijkstra's single-source shortest paths over a min-priority frontier
/// with lazy deletion of stale entries, as a binary-heap-backed
/// implementation would do in place of a decrease-key. The frontier here
/// is a vector scanned for its minimum, which has the same pop-the-minimum
/// semantics as a heap at a worse complexity. Returns the distance map
/// and the predecessor map, both total over the graph's vertices (the
/// distance map also covers the source, even when it is not a vertex).
///
/// An unreachable vertex keeps the sentinel distance `usize::MAX` and no
/// predecessor; any true shortest distance of `usize::MAX` or more is
/// likewise reported as the sentinel, so no addition ever overflows.
pub fn dijkstra_binheap(graph: &Graph, src: &str) -> (r: (StrMap<usize>, StrMap<Option<String>>))
    requires
        graph.wf(),
    ensures
        r.0.wf(),
        r.1.wf(),
        r.0@.dom() == graph@.dom().insert(src@),
        r.1@.dom() == graph@.dom(),
        r.0@[src@] == 0,
        forall|v: Seq<char>, p: Seq<Seq<char>>| #[trigger]
            connects(graph@, p, src@, v) && r.0@.contains_key(v) ==> path_cost(graph@, p)
                >= r.0@[v],
        forall|v: Seq<char>|
            (#[trigger] r.0@.contains_key(v)) && r.0@[v] < usize::MAX ==> exists|p: Seq<Seq<char>>|
                connects(graph@, p, src@, v) && path_cost(graph@, p) == r.0@[v] && follows_prev(
                    r.1@,
                    p,
                ),
        forall|v: Seq<char>| #[trigger]
            r.1@.contains_key(v) ==> ((r.1@[v] is Some) <==> (r.0@[v] < usize::MAX && v != src@)),
        forall|v: Seq<char>|
            (#[trigger] r.0@.contains_key(v)) && !(exists|p: Seq<Seq<char>>|
                connects(graph@, p, src@, v)) ==> r.0@[v] == usize::MAX,
        forall|v: Seq<char>| #[trigger]
            r.1@.contains_key(v) ==> match r.1@[v] {
                Some(u) => {
                    &&& has_edge(graph@, u@, v)
                    &&& r.0@.contains_key(u@)
                    &&& r.0@[u@] < usize::MAX
                    &&& r.0@[v] == r.0@[u@] + edge_weight(graph@, u@, v)
                },
                None => true,
            },
{
    let ghost m = graph@;
    let ghost s = src@;
    let mut dist: StrMap<usize> = StrMap::new();
    let mut prev: StrMap<Option<String>> = StrMap::new();
    proof {
        graph.lemma_vert_seq();
    }
    let nv = graph.vertex_count();
    let mut i: usize = 0;
    while i < nv
        invariant
            i <= nv,
            graph.wf(),
            m == graph@,
            nv == graph.vert_seq().len(),
            graph.vert_seq().no_duplicates(),
            forall|k: Seq<char>| #[trigger] m.contains_key(k) <==> graph.vert_seq().contains(k),
            dist.wf(),
            prev.wf(),
            forall|k: Seq<char>| #[trigger] dist.view().contains_key(k) <==> prev@.contains_key(k),
            forall|k: Seq<char>| #[trigger]
                dist.view().contains_key(k) ==> dist@[k] == usize::MAX && prev@.contains_key(k)
                    && prev@[k] is None,
            forall|j: int|
                0 <= j < i ==> dist.view().contains_key(#[trigger] graph.vert_seq()[j]),
            forall|k: Seq<char>| #[trigger]
                dist.view().contains_key(k) ==> graph.vert_seq().take(i as int).contains(k),
        decreases nv - i,
    {
        let v = graph.vertex_at(i);
        dist.insert(v.clone(), usize::MAX);
        prev.insert(v.clone(), None);
        proof {
            assert forall|k: Seq<char>| #[trigger]
                dist.view().contains_key(k) implies graph.vert_seq().take(i + 1).contains(k) by {
                if k == graph.vert_seq()[i as int] {
                    assert(graph.vert_seq().take(i + 1)[i as int] == k);
                } else {
                    let jj = choose|jj: int|
                        0 <= jj < i && graph.vert_seq().take(i as int)[jj] == k;
                    assert(graph.vert_seq().take(i + 1)[jj] == k);
                }
            }
        }
        i += 1;
    }
    proof {
        assert forall|k: Seq<char>| #[trigger]
            dist.view().contains_key(k) implies m.contains_key(k) by {
            let jj = choose|jj: int| 0 <= jj < nv && graph.vert_seq().take(nv as int)[jj] == k;
            assert(graph.vert_seq()[jj] == k);
        }
        assert forall|k: Seq<char>| #[trigger]
            m.contains_key(k) implies dist.view().contains_key(k) by {
            let jj = choose|jj: int|
                0 <= jj < graph.vert_seq().len() && graph.vert_seq()[jj] == k;
        }
    }
    let ghost dist0 = dist@;
    dist.insert(src.to_owned(), 0);
    proof {
        assert forall|k: Seq<char>| #[trigger] prev@.contains_key(k) implies m.contains_key(k)
            && prev@[k] is None && dist0.contains_key(k) && dist0[k] == usize::MAX by {
            assert(dist0.contains_key(k));
        }
        assert forall|k: Seq<char>| m.contains_key(k) implies #[trigger] prev@.contains_key(k) by {
            assert(dist0.contains_key(k));
        }
        assert(inv_prev_presence(s, dist@, prev@));
        assert(inv_prev_links(m, dist@, prev@, Map::<Seq<char>, nat>::empty().insert(s, 0)));
    }
    let mut heap: Vec<(usize, String)> = Vec::new();
    heap.push((0, src.to_owned()));
    let ghost verts = if m.contains_key(s) {
        graph.vert_seq()
    } else {
        graph.vert_seq().push(s)
    };
    proof {
        assert(verts.no_duplicates()) by {
            if !m.contains_key(s) {
                assert forall|x: int, y: int|
                    0 <= x < y < verts.len() implies verts[x] != verts[y] by {
                    if y == verts.len() - 1 {
                        assert(verts[x] == graph.vert_seq()[x]);
                        assert(graph.vert_seq().contains(verts[x]));
                    }
                }
            }
        }
        assert forall|k: Seq<char>| #[trigger] dist.view().contains_key(k) implies verts.contains(
            k,
        ) by {
            if k == s {
                if m.contains_key(s) {
                    let jj = choose|jj: int|
                        0 <= jj < graph.vert_seq().len() && graph.vert_seq()[jj] == s;
                    assert(verts[jj] == s);
                } else {
                    assert(verts[verts.len() - 1] == s);
                }
            } else {
                assert(m.contains_key(k));
                let jj = choose|jj: int|
                    0 <= jj < graph.vert_seq().len() && graph.vert_seq()[jj] == k;
                assert(verts[jj] == k);
            }
        }
        assert forall|k: Seq<char>| verts.contains(k) implies #[trigger] dist.view().contains_key(
            k,
        ) by {
            let jj = choose|jj: int| 0 <= jj < verts.len() && verts[jj] == k;
            if jj < graph.vert_seq().len() {
                assert(graph.vert_seq().contains(k));
            } else {
                assert(k == s);
            }
        }
    }
    let ghost mut dvals = Seq::<usize>::new(
        verts.len(),
        |jj: int|
            if verts[jj] == s {
                0usize
            } else {
                usize::MAX
            },
    );
    let ghost mut stamp = Map::<Seq<char>, nat>::empty().insert(s, 0);
    let ghost mut tick: nat = 1;
    proof {
        assert(has_entry(heap@, 0, s)) by {
            assert(heap@[0].0 == 0 && heap@[0].1@ == s);
        }
    }
    while heap.len() > 0
        invariant
            graph.wf(),
            m == graph@,
            s == src@,
            dist.wf(),
            prev.wf(),
            forall|k: Seq<char>| #[trigger] prev@.contains_key(k) <==> m.contains_key(k),
            forall|k: Seq<char>| #[trigger]
                dist.view().contains_key(k) <==> (m.contains_key(k) || k == s),
            dist.view().contains_key(s),
            dist@[s] == 0,
            verts.no_duplicates(),
            forall|k: Seq<char>| #[trigger] dist.view().contains_key(k) <==> verts.contains(k),
            dvals.len() == verts.len(),
            forall|jj: int| 0 <= jj < verts.len() ==> dvals[jj] == dist@[#[trigger] verts[jj]],
            inv_prev_presence(s, dist@, prev@),
            inv_prev_links(m, dist@, prev@, stamp),
            inv_stamps(dist@, stamp, tick),
            inv_heap(dist@, heap@),
            inv_settled(m, dist@, heap@),
        decreases seq_sum(dvals), heap@.len(),
    {
        let ghost h0 = heap@;
        let e = extract_min(&mut heap);
        let d = e.0;
        let ghost popk = choose|k: int|
            0 <= k < h0.len() && #[trigger] h0[k] == e && heap@ == h0.update(
                k,
                h0.last(),
            ).drop_last();
        proof {
            assert(dist.view().contains_key(e.1@) && d >= dist@[e.1@] && d < usize::MAX);
        }
        let da = *dist.get(e.1.as_str()).unwrap();
        if d > da {
            proof {
                lemma_pop_settled(m, dist@, h0, popk, heap@, d, e.1@, true);
            }
            continue ;
        }
        proof {
            assert(d == da);
            lemma_pop_settled(m, dist@, h0, popk, heap@, d, e.1@, false);
        }
        let nbrs_opt = graph.neighbors(e.1.as_str());
        match nbrs_opt {
            Some(nbrs) => {
                proof {
                    nbrs.lemma_dom();
                }
                let deg = nbrs.len();
                let ghost sum0 = seq_sum(dvals);
                let ghost hlen0 = heap@.len();
                let mut j: usize = 0;
                while j < deg
                    invariant
                        graph.wf(),
                        m == graph@,
                        s == src@,
                        dist.wf(),
                        prev.wf(),
                        j <= deg,
                        m.contains_key(e.1@),
                        nbrs.wf(),
                        nbrs@ == m[e.1@],
                        deg == nbrs.key_seq().len(),
                        forall|k: Seq<char>| #[trigger]
                            nbrs@.contains_key(k) <==> nbrs.key_seq().contains(k),
                        dist.view().contains_key(e.1@),
                        dist@[e.1@] == d,
                        d < usize::MAX,
                        forall|k: Seq<char>| #[trigger] prev@.contains_key(k) <==> m.contains_key(k),
                        forall|k: Seq<char>| #[trigger]
                            dist.view().contains_key(k) <==> (m.contains_key(k) || k == s),
                        dist.view().contains_key(s),
                        dist@[s] == 0,
                        verts.no_duplicates(),
                        forall|k: Seq<char>| #[trigger]
                            dist.view().contains_key(k) <==> verts.contains(k),
                        dvals.len() == verts.len(),
                        forall|jj: int|
                            0 <= jj < verts.len() ==> dvals[jj] == dist@[#[trigger] verts[jj]],
                        inv_prev_presence(s, dist@, prev@),
                        inv_prev_links(m, dist@, prev@, stamp),
                        inv_stamps(dist@, stamp, tick),
                        inv_heap(dist@, heap@),
                        inv_settled_except(m, dist@, heap@, e.1@),
                        forall|jj: int|
                            0 <= jj < j ==> {
                                let b = #[trigger] nbrs.key_seq()[jj];
                                d + edge_weight(m, e.1@, b) >= usize::MAX || (
                                dist.view().contains_key(b) && dist@[b] <= d + edge_weight(
                                    m,
                                    e.1@,
                                    b,
                                ))
                            },
                        seq_sum(dvals) < sum0 || (seq_sum(dvals) == sum0 && heap@.len() == hlen0),
                    decreases deg - j,
                {
                    let b = nbrs.key_at(j);
                    let w = *nbrs.val_at(j);
                    proof {
                        assert(nbrs@.contains_key(b@));
                        assert(has_edge(m, e.1@, b@));
                        assert(edge_weight(m, e.1@, b@) == w);
                        assert(has_edge(m, b@, e.1@));
                        assert(m.contains_key(b@));
                        assert(dist.view().contains_key(b@));
                    }
                    if w < usize::MAX - d {
                        let alt = d + w;
                        let db = *dist.get(b.as_str()).unwrap();
                        if alt < db {
                            let ghost old_dist = dist@;
                            let ghost old_prev = prev@;
                            let ghost old_heap = heap@;
                            dist.insert(b.clone(), alt);
                            prev.insert(b.clone(), Some(e.1.clone()));
                            heap.push((alt, b.clone()));
                            proof {
                                lemma_relax_update(
                                    m,
                                    s,
                                    old_dist,
                                    old_prev,
                                    old_heap,
                                    stamp,
                                    tick,
                                    e.1@,
                                    e.1,
                                    b@,
                                    *b,
                                    w,
                                    d,
                                    alt,
                                    dist@,
                                    prev@,
                                    heap@,
                                    stamp.insert(b@, tick),
                                    tick + 1,
                                );
                                stamp = stamp.insert(b@, tick);
                                tick = tick + 1;
                                let bi = choose|bi: int| 0 <= bi < verts.len() && verts[bi] == b@;
                                lemma_seq_sum_update(dvals, bi, alt);
                                dvals = dvals.update(bi, alt);
                                assert forall|jj: int|
                                    0 <= jj < verts.len() implies dvals[jj] == dist@[#[trigger] verts[jj]] by {
                                    if jj != bi {
                                        assert(verts[jj] != b@);
                                        assert(dist@[verts[jj]] == old_dist[verts[jj]]);
                                    }
                                }
                                assert(seq_sum(dvals) < sum0) by {
                                    assert(old_dist[b@] == dvals.update(bi, old_dist[b@])[bi]);
                                }
                                assert forall|jj: int|
                                    0 <= jj < j + 1 implies {
                                        let bb = #[trigger] nbrs.key_seq()[jj];
                                        d + edge_weight(m, e.1@, bb) >= usize::MAX || (
                                        dist.view().contains_key(bb) && dist@[bb] <= d
                                            + edge_weight(m, e.1@, bb))
                                    } by {
                                    let bb = nbrs.key_seq()[jj];
                                    if jj < j {
                                        assert(dist@[bb] == old_dist[bb] || dist@[bb] == alt);
                                    } else {
                                        assert(bb == b@);
                                        assert(dist@[b@] == alt);
                                    }
                                }
                            }
                        } else {
                            proof {
                                assert forall|jj: int|
                                    0 <= jj < j + 1 implies {
                                        let bb = #[trigger] nbrs.key_seq()[jj];
                                        d + edge_weight(m, e.1@, bb) >= usize::MAX || (
                                        dist.view().contains_key(bb) && dist@[bb] <= d
                                            + edge_weight(m, e.1@, bb))
                                    } by {}
                            }
                        }
                    } else {
                        proof {
                            assert forall|jj: int|
                                0 <= jj < j + 1 implies {
                                    let bb = #[trigger] nbrs.key_seq()[jj];
                                    d + edge_weight(m, e.1@, bb) >= usize::MAX || (
                                    dist.view().contains_key(bb) && dist@[bb] <= d + edge_weight(
                                        m,
                                        e.1@,
                                        bb,
                                    ))
                                } by {}
                        }
                    }
                    j += 1;
                }
                proof {
                    assert(relaxed(m, dist@, e.1@)) by {
                        assert forall|bb: Seq<char>| #[trigger] has_edge(m, e.1@, bb) implies dist@[e.1@]
                            + edge_weight(m, e.1@, bb) >= usize::MAX || (dist.view().contains_key(bb)
                            && dist@[bb] <= dist@[e.1@] + edge_weight(m, e.1@, bb)) by {
                            assert(nbrs@.contains_key(bb));
                            assert(nbrs.key_seq().contains(bb));
                            let jj = choose|jj: int|
                                0 <= jj < nbrs.key_seq().len() && nbrs.key_seq()[jj] == bb;
                        }
                    }
                    assert(inv_settled(m, dist@, heap@));
                }
            },
            None => {
                proof {
                    assert(relaxed(m, dist@, e.1@));
                    assert(inv_settled(m, dist@, heap@));
                }
            },
        }
    }
    proof {
        assert(final_state(m, s, dist@, prev@, stamp)) by {
            assert forall|v: Seq<char>| #[trigger] prev@.contains_key(v) implies match prev@[v] {
                Some(u) => {
                    &&& has_edge(m, u@, v)
                    &&& dist.view().contains_key(u@)
                    &&& dist@[u@] < usize::MAX
                    &&& stamp.contains_key(u@)
                    &&& stamp.contains_key(v)
                    &&& dist@[v] == dist@[u@] + edge_weight(m, u@, v)
                    &&& stamp[u@] < stamp[v]
                },
                None => true,
            } by {
                match prev@[v] {
                    Some(u) => {
                        assert(dist@[v] < usize::MAX);
                        assert(dist@[u@] + edge_weight(m, u@, v) <= dist@[v]);
                        assert(dist@[u@] < usize::MAX);
                        assert(!has_entry(heap@, dist@[u@], u@));
                        assert(relaxed(m, dist@, u@));
                        assert(has_edge(m, u@, v));
                        assert(dist@[v] <= dist@[u@] + edge_weight(m, u@, v));
                    },
                    None => {},
                }
            }
        }
        assert forall|v: Seq<char>|
            (#[trigger] dist.view().contains_key(v)) && dist@[v]
                < usize::MAX implies exists|p: Seq<Seq<char>>|
            connects(m, p, s, v) && path_cost(m, p) == dist@[v] && follows_prev(prev@, p) by {
            lemma_chain(m, s, dist@, prev@, stamp, v);
        }
        assert forall|v: Seq<char>, p: Seq<Seq<char>>| #[trigger]
            connects(m, p, s, v) && dist.view().contains_key(v) implies path_cost(m, p)
            >= dist@[v] by {
            assert forall|u: Seq<char>| #[trigger]
                dist.view().contains_key(u) && dist@[u] < usize::MAX implies relaxed(
                m,
                dist@,
                u,
            ) by {
                assert(!has_entry(heap@, dist@[u], u));
            }
            lemma_no_shorter(m, s, dist@, p, v);
        }
        assert(dist@.dom() =~= m.dom().insert(s));
        assert(prev@.dom() =~= m.dom());
    }
    (dist, prev)
}

} // verus!
