//! Properties of the dependency graph that hold in every well-formed cache; those on
//! invalidation hold while its reader lists are consistent.
use vstd::prelude::*;

use crate::cache::Cache;
use crate::lazy::{Lazy, NodeId, OpaqueLazy};
use crate::reach::{is_walk, lemma_walk_drop_last, lemma_walk_prepend, lemma_walk_push, lemma_walk_single, reaches};

verus! {

/// A payload that read `d` in its last build and is still alive is among the payloads that
/// invalidating `d` marks for rebuilding.
pub proof fn law_reader_is_invalidated_with_dependency<A, E>(cache: &Cache<A, E>, d: NodeId, p: NodeId)
    requires
        cache.wf(),
        cache.readers_consistent(),
        (p as int) < cache.len(),
        cache.node(p as int).alive,
        cache.deps(p as int).contains(d),
    ensures
        cache.reads_transitively(d, p),
{
    let j = choose|j: int| 0 <= j < cache.deps(p as int).len() && cache.deps(p as int)[j] == d;
    assert((cache.deps(p as int)[j] as int) < cache.len());
    assert(cache.rdeps(d as int).contains(p));
    let adj = cache.rdep_graph();
    let al = cache.alive_mask();
    lemma_walk_single(adj, al, d);
    assert(adj[d as int] == cache.rdeps(d as int));
    lemma_walk_push(adj, al, seq![d], p);
    assert(is_walk(adj, al, seq![d].push(p)) && seq![d].push(p)[0] == d && seq![d].push(p).last() == p);
}

/// Invalidation passes through chains of readers: an alive payload that read a payload
/// reached from `from` is reached from `from` too.
pub proof fn law_invalidation_is_transitive<A, E>(cache: &Cache<A, E>, from: NodeId, q: NodeId, p: NodeId)
    requires
        cache.wf(),
        cache.readers_consistent(),
        cache.reads_transitively(from, q),
        (p as int) < cache.len(),
        cache.node(p as int).alive,
        cache.deps(p as int).contains(q),
    ensures
        cache.reads_transitively(from, p),
{
    let j = choose|j: int| 0 <= j < cache.deps(p as int).len() && cache.deps(p as int)[j] == q;
    assert((cache.deps(p as int)[j] as int) < cache.len());
    assert(cache.rdeps(q as int).contains(p));
    let adj = cache.rdep_graph();
    let al = cache.alive_mask();
    let walk = choose|walk: Seq<NodeId>|
        #[trigger] is_walk(adj, al, walk) && (|v: NodeId| v == from)(walk[0]) && walk.last() == q;
    assert(adj[q as int] == cache.rdeps(q as int));
    lemma_walk_push(adj, al, walk, p);
    assert(is_walk(adj, al, walk.push(p)) && walk.push(p)[0] == from && walk.push(p).last() == p);
}

/// Invalidation reaches only what depends on its source: a payload that invalidating `from`
/// marks read `from` in its last build, directly or through a chain of payloads each of
/// which read the next.
pub proof fn law_only_dependents_are_invalidated<A, E>(cache: &Cache<A, E>, from: NodeId, t: NodeId)
    requires
        cache.wf(),
        cache.readers_consistent(),
        cache.reads_transitively(from, t),
    ensures
        reaches(cache.dep_graph(), cache.everywhere(), |v: NodeId| v == t, from),
{
    let walk = choose|walk: Seq<NodeId>|
        #[trigger] is_walk(cache.rdep_graph(), cache.alive_mask(), walk) && (|v: NodeId| v == from)(walk[0])
            && walk.last() == t;
    lemma_reader_walk_reverses(cache, from, walk);
}

proof fn lemma_reader_walk_reverses<A, E>(cache: &Cache<A, E>, from: NodeId, walk: Seq<NodeId>)
    requires
        cache.wf(),
        cache.readers_consistent(),
        is_walk(cache.rdep_graph(), cache.alive_mask(), walk),
        walk[0] == from,
    ensures
        reaches(cache.dep_graph(), cache.everywhere(), |v: NodeId| v == walk.last(), from),
    decreases walk.len(),
{
    let adj = cache.dep_graph();
    let al = cache.everywhere();
    if walk.len() == 1 {
        lemma_walk_single(adj, al, from);
        assert(is_walk(adj, al, seq![from]) && (|v: NodeId| v == walk.last())(seq![from][0]) && seq![from].last() == from);
    } else {
        lemma_walk_drop_last(cache.rdep_graph(), cache.alive_mask(), walk);
        let prefix = walk.drop_last();
        let u = prefix.last();
        let p = walk.last();
        lemma_reader_walk_reverses(cache, from, prefix);
        let back = choose|back: Seq<NodeId>|
            #[trigger] is_walk(adj, al, back) && (|v: NodeId| v == u)(back[0]) && back.last() == from;
        assert((p as int) < cache.len());
        assert(cache.alive_mask()[p as int]);
        assert(cache.rdep_graph()[u as int] == cache.rdeps(u as int));
        assert((u as int) < cache.len());
        assert(cache.rdeps(u as int).contains(p));
        assert(cache.deps(p as int).contains(u));
        assert(adj[p as int] == cache.deps(p as int));
        lemma_walk_prepend(adj, al, back, p);
        let fwd = seq![p] + back;
        assert(is_walk(adj, al, fwd) && (|v: NodeId| v == walk.last())(fwd[0]) && fwd.last() == from);
    }
}

/// A payload held by a handle, a run or a tracker is alive.
pub proof fn law_held_payload_is_alive<A, E>(cache: &Cache<A, E>, n: NodeId)
    requires
        cache.wf(),
        (n as int) < cache.len(),
        cache.node(n as int).handles > 0,
    ensures
        cache.node(n as int).alive,
{
    cache.lemma_held_is_alive(n);
}

/// What an alive payload read in its last build is alive too.
pub proof fn law_dependencies_of_alive_payload_are_alive<A, E>(cache: &Cache<A, E>, p: NodeId, d: NodeId)
    requires
        cache.wf(),
        (p as int) < cache.len(),
        cache.node(p as int).alive,
        cache.deps(p as int).contains(d),
    ensures
        (d as int) < cache.len(),
        cache.node(d as int).alive,
{
    cache.lemma_dependency_alive(p, d);
}

/// Every alive payload is the one that the cache hands out for its worker and value type:
/// equal workers share one payload.
pub proof fn law_alive_payload_is_shared<A, E>(cache: &Cache<A, E>, n: NodeId)
    requires
        cache.wf(),
        (n as int) < cache.len(),
        cache.node(n as int).alive,
    ensures
        cache.live_entry(cache.node(n as int).type_key, cache.node(n as int).identity) == Some(n),
{
    cache.lemma_alive_is_entry(n);
}

/// A payload that nothing holds and that no alive payload read is gone: it is not alive, and
/// the cache no longer hands it out, so the next request for its worker builds afresh.
pub proof fn law_unreferenced_payload_is_dropped<A, E>(cache: &Cache<A, E>, n: NodeId)
    requires
        cache.wf(),
        (n as int) < cache.len(),
        cache.node(n as int).handles == 0,
        forall|p: int| 0 <= p < cache.len() && cache.node(p).alive ==> !(#[trigger] cache.deps(p)).contains(n),
    ensures
        !cache.node(n as int).alive,
        cache.live_entry(cache.node(n as int).type_key, cache.node(n as int).identity) != Some(n),
{
    cache.lemma_unreferenced_dead(n);
}

/// Storing a build that read the same payloads as the build before it, in any order,
/// reports no added and no removed dependency: `set_new_build_result` states its diff by
/// these two sets.
pub proof fn law_same_dependencies_give_an_empty_diff<A, E>(cache: &Cache<A, E>, before: Seq<NodeId>, after: Seq<NodeId>)
    requires
        after.to_set() == before.to_set(),
    ensures
        cache.added_dependencies(before, after) == Set::<NodeId>::empty(),
        cache.removed_dependencies(before, after) == Set::<NodeId>::empty(),
{
    assert forall|d: NodeId| after.to_set().contains(d) implies cache.lists_identity(before, cache.node(d as int).identity) by {
        assert(before.to_set().contains(d));
        let i = choose|i: int| 0 <= i < before.len() && before[i] == d;
        assert(cache.node(before[i] as int).identity == cache.node(d as int).identity);
    }
    assert forall|d: NodeId| before.to_set().contains(d) implies cache.lists_identity(after, cache.node(d as int).identity) by {
        assert(after.to_set().contains(d));
        let i = choose|i: int| 0 <= i < after.len() && after[i] == d;
        assert(cache.node(after[i] as int).identity == cache.node(d as int).identity);
    }
    assert(cache.added_dependencies(before, after) =~= Set::<NodeId>::empty());
    assert(cache.removed_dependencies(before, after) =~= Set::<NodeId>::empty());
}

/// A handle is up to date exactly when it is connected and its payload is not pending a
/// rebuild, whatever its last build produced (a value or an error).
pub proof fn law_up_to_date_means_not_pending<A, E>(handle: OpaqueLazy, cache: &Cache<A, E>)
    ensures
        handle.spec_is_up_to_date(cache) == (handle matches OpaqueLazy::Cached(n) && !cache.node(
            n as int,
        ).rebuild_pending),
{
}

/// An evaluation runs the worker exactly when its payload is new or pending a rebuild,
/// whatever its last build produced (a value or an error).
pub proof fn law_evaluation_builds_exactly_when_pending<T, A, E>(cache: &Cache<A, E>, n: NodeId)
    ensures
        Lazy::<T>::pending_at(cache, n) == ((n as int) >= cache.len() || cache.node(n as int).rebuild_pending),
{
}

/// Invalidating a payload marks the payload itself: it is among what invalidation reaches
/// from it, so a handle connected to it is no longer up to date.
pub proof fn law_invalidation_marks_its_source<A, E>(cache: &Cache<A, E>, n: NodeId)
    requires
        (n as int) < cache.len(),
    ensures
        cache.reads_transitively(n, n),
{
    let adj = cache.rdep_graph();
    let al = cache.alive_mask();
    lemma_walk_single(adj, al, n);
    assert(is_walk(adj, al, seq![n]) && (|v: NodeId| v == n)(seq![n][0]) && seq![n].last() == n);
}

} // verus!
