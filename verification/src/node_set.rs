//! Lists of payload ids used as sets: membership, difference and removal.
use vstd::prelude::*;

use crate::lazy::NodeId;

verus! {

/// Whether `x` occurs in `v`.
pub fn contains_node(v: &Vec<NodeId>, x: NodeId) -> (found: bool)
    ensures
        found == v@.contains(x),
{
    let mut i: usize = 0;
    while i < v.len()
        invariant
            i <= v@.len(),
            forall|k: int| 0 <= k < i ==> v@[k] != x,
        decreases v.len() - i,
    {
        if v[i] == x {
            proof {
                assert(v@[i as int] == x);
            }
            return true;
        }
        i = i + 1;
    }
    false
}

/// The elements of `v` that `keep` (indexed by payload id) selects, in their order in `v`.
pub fn select_nodes(v: &Vec<NodeId>, keep: &Vec<bool>) -> (w: Vec<NodeId>)
    requires
        v@.no_duplicates(),
        forall|k: int| 0 <= k < v@.len() ==> (#[trigger] v@[k] as int) < keep@.len(),
    ensures
        w@ == v@.filter(|y: NodeId| keep@[y as int]),
        w@.no_duplicates(),
        forall|y: NodeId| #[trigger] w@.contains(y) <==> v@.contains(y) && keep@[y as int],
{
    let ghost pred = |y: NodeId| keep@[y as int];
    let mut w: Vec<NodeId> = Vec::new();
    proof {
        reveal(Seq::filter);
        assert(v@.take(0) =~= Seq::<NodeId>::empty());
    }
    for i in 0..v.len()
        invariant
            pred == (|y: NodeId| keep@[y as int]),
            w@ == v@.take(i as int).filter(pred),
            v@.no_duplicates(),
            forall|k: int| 0 <= k < v@.len() ==> (#[trigger] v@[k] as int) < keep@.len(),
            w@.no_duplicates(),
            forall|y: NodeId| #[trigger] w@.contains(y) ==> exists|k: int| 0 <= k < i && v@[k] == y,
            forall|y: NodeId|
                (exists|k: int| 0 <= k < i && #[trigger] v@[k] == y) && keep@[y as int] ==> w@.contains(y),
            forall|y: NodeId| #[trigger] w@.contains(y) ==> keep@[y as int],
    {
        let x = v[i];
        let ghost w0 = w@;
        proof {
            assert(v@[i as int] == x);
        }
        if keep[x] {
            proof {
                assert(!w0.contains(x)) by {
                    if w0.contains(x) {
                        let k = choose|k: int| 0 <= k < i && v@[k] == x;
                        assert(v@[k] == v@[i as int]);
                    }
                }
            }
            w.push(x);
            proof {
                assert(w@ == w0.push(x));
                assert(w@[w0.len() as int] == x);
                assert forall|a: int, b: int| 0 <= a < b < w@.len() implies w@[a] != w@[b] by {
                    if b == w0.len() {
                        assert(w0.contains(w@[a]));
                    } else {
                        assert(w@[a] == w0[a] && w@[b] == w0[b]);
                    }
                }
                assert forall|y: NodeId| #[trigger] w@.contains(y) implies exists|k: int| 0 <= k < i + 1 && v@[k] == y by {
                    if y != x {
                        let j = choose|j: int| 0 <= j < w@.len() && w@[j] == y;
                        assert(j < w0.len());
                        assert(w0[j] == y);
                        assert(w0.contains(y));
                    } else {
                        assert(v@[i as int] == y);
                    }
                }
                assert forall|y: NodeId| #[trigger] w@.contains(y) implies keep@[y as int] by {
                    if y != x {
                        let j = choose|j: int| 0 <= j < w@.len() && w@[j] == y;
                        assert(w0[j] == y);
                        assert(w0.contains(y));
                    }
                }
                assert forall|y: NodeId| w0.contains(y) implies #[trigger] w@.contains(y) by {
                    let j = choose|j: int| 0 <= j < w0.len() && w0[j] == y;
                    assert(w@[j] == y);
                }
            }
        }
        proof {
            assert forall|y: NodeId|
                (exists|k: int| 0 <= k < i + 1 && #[trigger] v@[k] == y) && keep@[y as int] implies w@.contains(y) by {
                let k = choose|k: int| 0 <= k < i + 1 && v@[k] == y;
                if k < i {
                    assert(w0.contains(y));
                    if keep@[x as int] {
                        let j = choose|j: int| 0 <= j < w0.len() && w0[j] == y;
                        assert(w@[j] == y);
                    }
                } else {
                    assert(y == x);
                    assert(w@[w@.len() - 1] == x);
                }
            }
            reveal(Seq::filter);
            let t = v@.take(i + 1);
            assert(t.drop_last() =~= v@.take(i as int));
            assert(t.last() == x);
            assert(w@ =~= t.filter(pred));
        }
    }
    proof {
        assert(v@.take(v@.len() as int) =~= v@);
    }
    proof {
        assert forall|y: NodeId| #[trigger] w@.contains(y) <==> v@.contains(y) && keep@[y as int] by {
            if v@.contains(y) && keep@[y as int] {
                let k = choose|k: int| 0 <= k < v@.len() && v@[k] == y;
                assert(exists|k: int| 0 <= k < v@.len() && #[trigger] v@[k] == y);
            }
            if w@.contains(y) {
                let k = choose|k: int| 0 <= k < v@.len() && v@[k] == y;
                assert(v@[k] == y);
            }
        }
    }
    w
}

/// Filtering a sequence depends only on what the predicate says of its elements.
pub proof fn lemma_filter_agree(s: Seq<NodeId>, p1: spec_fn(NodeId) -> bool, p2: spec_fn(NodeId) -> bool)
    requires
        forall|i: int| 0 <= i < s.len() ==> p1(#[trigger] s[i]) == p2(s[i]),
    ensures
        s.filter(p1) == s.filter(p2),
    decreases s.len(),
{
    reveal(Seq::filter);
    if s.len() > 0 {
        lemma_filter_agree(s.drop_last(), p1, p2);
        assert(p1(s[s.len() - 1]) == p2(s[s.len() - 1]));
    }
}

/// The elements of `a` that do not occur in `b`.
pub fn difference(a: &Vec<NodeId>, b: &Vec<NodeId>) -> (d: Vec<NodeId>)
    requires
        a@.no_duplicates(),
    ensures
        d@.no_duplicates(),
        forall|y: NodeId| #[trigger] d@.contains(y) <==> a@.contains(y) && !b@.contains(y),
{
    let mut d: Vec<NodeId> = Vec::new();
    for i in 0..a.len()
        invariant
            a@.no_duplicates(),
            d@.no_duplicates(),
            forall|y: NodeId| #[trigger] d@.contains(y) <==> (exists|k: int| 0 <= k < i && a@[k] == y)
                && !b@.contains(y),
    {
        let x = a[i];
        let ghost d0 = d@;
        proof {
            assert(a@[i as int] == x);
        }
        if !contains_node(b, x) {
            proof {
                assert(!d0.contains(x)) by {
                    if d0.contains(x) {
                        let k = choose|k: int| 0 <= k < i && a@[k] == x;
                        assert(a@[k] == a@[i as int]);
                    }
                }
            }
            d.push(x);
            proof {
                assert(d@ == d0.push(x));
                assert forall|p: int, q: int| 0 <= p < q < d@.len() implies d@[p] != d@[q] by {
                    if q == d0.len() {
                        assert(d0.contains(d@[p]));
                    } else {
                        assert(d@[p] == d0[p] && d@[q] == d0[q]);
                    }
                }
                assert forall|y: NodeId| d0.contains(y) implies #[trigger] d@.contains(y) by {
                    let j = choose|j: int| 0 <= j < d0.len() && d0[j] == y;
                    assert(d@[j] == y);
                }
                assert forall|y: NodeId| #[trigger] d@.contains(y) && y != x implies d0.contains(y) by {
                    let j = choose|j: int| 0 <= j < d@.len() && d@[j] == y;
                    assert(d0[j] == y);
                }
                assert(d@[d0.len() as int] == x);
            }
        }
        proof {
            assert forall|y: NodeId| #[trigger] d@.contains(y) <==> (exists|k: int| 0 <= k < i + 1 && a@[k] == y)
                && !b@.contains(y) by {
                if exists|k: int| 0 <= k < i + 1 && a@[k] == y {
                    let k = choose|k: int| 0 <= k < i + 1 && a@[k] == y;
                    if k < i {
                        assert(exists|k: int| 0 <= k < i && a@[k] == y);
                    }
                }
                if d0.contains(y) {
                    let k = choose|k: int| 0 <= k < i && a@[k] == y;
                    assert(exists|k2: int| 0 <= k2 < i + 1 && a@[k2] == y);
                }
            }
        }
    }
    proof {
        assert forall|y: NodeId| #[trigger] d@.contains(y) <==> a@.contains(y) && !b@.contains(y) by {
            if a@.contains(y) {
                let k = choose|k: int| 0 <= k < a@.len() && a@[k] == y;
                assert(exists|k2: int| 0 <= k2 < a@.len() && a@[k2] == y);
            }
            if exists|k: int| 0 <= k < a@.len() && a@[k] == y {
                let k = choose|k: int| 0 <= k < a@.len() && a@[k] == y;
                assert(a@.contains(y));
            }
        }
    }
    d
}

/// `v` without `x`.
pub fn without_node(v: &Vec<NodeId>, x: NodeId) -> (w: Vec<NodeId>)
    requires
        v@.no_duplicates(),
    ensures
        w@.no_duplicates(),
        forall|y: NodeId| #[trigger] w@.contains(y) <==> v@.contains(y) && y != x,
{
    let mut single: Vec<NodeId> = Vec::new();
    single.push(x);
    proof {
        assert forall|y: NodeId| #[trigger] single@.contains(y) <==> y == x by {
            if y == x {
                assert(single@[0] == x);
            }
        }
    }
    difference(v, &single)
}

} // verus!
