//! Walks and reachability in a directed graph over the vertices `0..adj.len()`,
//! where `adj[v]` lists the successors of `v`.
use vstd::prelude::*;

verus! {

/// A non-empty walk along edges of `adj`; every vertex after the first must be `allowed`.
pub open spec fn is_walk(adj: Seq<Seq<usize>>, allowed: Seq<bool>, walk: Seq<usize>) -> bool {
    &&& walk.len() >= 1
    &&& forall|i: int| 0 <= i < walk.len() ==> (#[trigger] walk[i] as int) < adj.len()
    &&& forall|i: int| 1 <= i < walk.len() ==> allowed[#[trigger] walk[i] as int]
    &&& forall|i: int|
        0 <= i < walk.len() - 1 ==> adj[#[trigger] walk[i] as int].contains(walk[i + 1])
}

/// `target` is the end of a walk that starts at a vertex satisfying `is_source`.
pub open spec fn reaches(
    adj: Seq<Seq<usize>>,
    allowed: Seq<bool>,
    is_source: spec_fn(usize) -> bool,
    target: usize,
) -> bool {
    exists|walk: Seq<usize>|
        #[trigger] is_walk(adj, allowed, walk) && is_source(walk[0]) && walk.last() == target
}

/// Every successor of a marked vertex that is allowed is marked too.
pub open spec fn is_closed(adj: Seq<Seq<usize>>, allowed: Seq<bool>, marked: Seq<bool>) -> bool {
    forall|u: int, j: int|
        0 <= u < adj.len() && marked[u] && 0 <= j < adj[u].len() && allowed[adj[u][j] as int]
            ==> marked[#[trigger] adj[u][j] as int]
}

/// A marking that holds every source and is closed under allowed edges marks the end of
/// every walk from a source.
pub proof fn lemma_closed_marks_walk(
    adj: Seq<Seq<usize>>,
    allowed: Seq<bool>,
    is_source: spec_fn(usize) -> bool,
    marked: Seq<bool>,
    walk: Seq<usize>,
)
    requires
        marked.len() == adj.len(),
        is_walk(adj, allowed, walk),
        is_source(walk[0]),
        forall|v: usize| (v as int) < adj.len() && #[trigger] is_source(v) ==> marked[v as int],
        is_closed(adj, allowed, marked),
    ensures
        marked[walk.last() as int],
    decreases walk.len(),
{
    if walk.len() > 1 {
        let prefix = walk.drop_last();
        assert(is_walk(adj, allowed, prefix)) by {
            assert forall|i: int| 0 <= i < prefix.len() - 1 implies adj[#[trigger] prefix[i] as int].contains(
                prefix[i + 1],
            ) by {
                assert(prefix[i] == walk[i]);
                assert(prefix[i + 1] == walk[i + 1]);
            }
        }
        lemma_closed_marks_walk(adj, allowed, is_source, marked, prefix);
        let k = walk.len() - 2;
        let u = walk[k];
        assert(prefix.last() == u);
        assert(adj[u as int].contains(walk[k + 1]));
        let j = choose|j: int| 0 <= j < adj[u as int].len() && adj[u as int][j] == walk[k + 1];
        assert(allowed[walk[k + 1] as int]);
        assert(marked[adj[u as int][j] as int]);
    }
}

/// Everything reachable from the sources is marked by a closed marking that holds the sources.
pub proof fn lemma_closed_marks_reachable(
    adj: Seq<Seq<usize>>,
    allowed: Seq<bool>,
    is_source: spec_fn(usize) -> bool,
    marked: Seq<bool>,
)
    requires
        marked.len() == adj.len(),
        forall|v: usize| (v as int) < adj.len() && #[trigger] is_source(v) ==> marked[v as int],
        is_closed(adj, allowed, marked),
    ensures
        forall|t: usize| #[trigger] reaches(adj, allowed, is_source, t) ==> marked[t as int],
{
    assert forall|t: usize| #[trigger] reaches(adj, allowed, is_source, t) implies marked[t as int] by {
        let walk = choose|walk: Seq<usize>|
            #[trigger] is_walk(adj, allowed, walk) && is_source(walk[0]) && walk.last() == t;
        lemma_closed_marks_walk(adj, allowed, is_source, marked, walk);
    }
}

/// A walk extended by one allowed successor of its last vertex is a walk.
pub proof fn lemma_walk_push(adj: Seq<Seq<usize>>, allowed: Seq<bool>, walk: Seq<usize>, v: usize)
    requires
        is_walk(adj, allowed, walk),
        (v as int) < adj.len(),
        allowed[v as int],
        adj[walk.last() as int].contains(v),
    ensures
        is_walk(adj, allowed, walk.push(v)),
        walk.push(v)[0] == walk[0],
        walk.push(v).last() == v,
{
    let w = walk.push(v);
    assert forall|i: int| 0 <= i < w.len() - 1 implies adj[#[trigger] w[i] as int].contains(w[i + 1]) by {
        if i < walk.len() - 1 {
            assert(w[i] == walk[i] && w[i + 1] == walk[i + 1]);
        } else {
            assert(w[i] == walk.last());
        }
    }
    assert forall|i: int| 1 <= i < w.len() implies allowed[#[trigger] w[i] as int] by {
        if i < walk.len() {
            assert(w[i] == walk[i]);
        }
    }
    assert forall|i: int| 0 <= i < w.len() implies (#[trigger] w[i] as int) < adj.len() by {
        if i < walk.len() {
            assert(w[i] == walk[i]);
        }
    }
}

/// Adding sources keeps every reachable vertex reachable.
pub proof fn lemma_reaches_more_sources(
    adj: Seq<Seq<usize>>,
    allowed: Seq<bool>,
    src1: spec_fn(usize) -> bool,
    src2: spec_fn(usize) -> bool,
    t: usize,
)
    requires
        reaches(adj, allowed, src1, t),
        forall|v: usize| #[trigger] src1(v) ==> src2(v),
    ensures
        reaches(adj, allowed, src2, t),
{
    let walk = choose|walk: Seq<usize>|
        #[trigger] is_walk(adj, allowed, walk) && src1(walk[0]) && walk.last() == t;
    assert(is_walk(adj, allowed, walk) && src2(walk[0]));
}

/// A single source vertex is a walk of length one.
pub proof fn lemma_walk_single(adj: Seq<Seq<usize>>, allowed: Seq<bool>, s: usize)
    requires
        (s as int) < adj.len(),
    ensures
        is_walk(adj, allowed, seq![s]),
        seq![s][0] == s,
        seq![s].last() == s,
{
}

/// A source is reachable from the sources.
pub proof fn lemma_reaches_source(
    adj: Seq<Seq<usize>>,
    al: Seq<bool>,
    is_source: spec_fn(usize) -> bool,
    s: usize,
)
    requires
        (s as int) < adj.len(),
        is_source(s),
    ensures
        reaches(adj, al, is_source, s),
{
    lemma_walk_single(adj, al, s);
}

/// Reachability extends along an allowed edge.
pub proof fn lemma_reaches_step(
    adj: Seq<Seq<usize>>,
    al: Seq<bool>,
    is_source: spec_fn(usize) -> bool,
    u: usize,
    v: usize,
)
    requires
        reaches(adj, al, is_source, u),
        (v as int) < adj.len(),
        al[v as int],
        adj[u as int].contains(v),
    ensures
        reaches(adj, al, is_source, v),
{
    let walk = choose|walk: Seq<usize>|
        #[trigger] is_walk(adj, al, walk) && is_source(walk[0]) && walk.last() == u;
    lemma_walk_push(adj, al, walk, v);
}

/// A walk without its last vertex is a walk.
pub proof fn lemma_walk_drop_last(adj: Seq<Seq<usize>>, allowed: Seq<bool>, walk: Seq<usize>)
    requires
        is_walk(adj, allowed, walk),
        walk.len() > 1,
    ensures
        is_walk(adj, allowed, walk.drop_last()),
        walk.drop_last()[0] == walk[0],
        adj[walk.drop_last().last() as int].contains(walk.last()),
{
    let prefix = walk.drop_last();
    assert forall|i: int| 0 <= i < prefix.len() - 1 implies adj[#[trigger] prefix[i] as int].contains(prefix[i + 1]) by {
        assert(prefix[i] == walk[i]);
        assert(prefix[i + 1] == walk[i + 1]);
    }
    assert(prefix.last() == walk[walk.len() - 2]);
}

/// A walk with a vertex put in front of it, along an edge into its first vertex, is a walk
/// when every vertex is allowed.
pub proof fn lemma_walk_prepend(adj: Seq<Seq<usize>>, allowed: Seq<bool>, walk: Seq<usize>, v: usize)
    requires
        is_walk(adj, allowed, walk),
        (v as int) < adj.len(),
        allowed[walk[0] as int],
        adj[v as int].contains(walk[0]),
    ensures
        is_walk(adj, allowed, seq![v] + walk),
        (seq![v] + walk)[0] == v,
        (seq![v] + walk).last() == walk.last(),
{
    let w = seq![v] + walk;
    assert forall|i: int| 0 <= i < w.len() - 1 implies adj[#[trigger] w[i] as int].contains(w[i + 1]) by {
        if i > 0 {
            assert(w[i] == walk[i - 1] && w[i + 1] == walk[i]);
        }
    }
    assert forall|i: int| 1 <= i < w.len() implies allowed[#[trigger] w[i] as int] by {
        assert(w[i] == walk[i - 1]);
    }
    assert forall|i: int| 0 <= i < w.len() implies (#[trigger] w[i] as int) < adj.len() by {
        if i > 0 {
            assert(w[i] == walk[i - 1]);
        }
    }
}

} // verus!
