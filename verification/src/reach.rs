//! Reachability over the graph's adjacency, and the single-source traversal
//! the connectivity reducer probes with.

use vstd::prelude::*;
use std::collections::HashMap;
use std::collections::HashSet;
use crate::graph::{RoadNetwork, has_edge, edge_map_of};
use vstd::std_specs::iter::IteratorSpec;

verus! {

broadcast use vstd::std_specs::hash::group_hash_axioms;

/// `p` is a chain of adjacent node ids in `em`.
pub open spec fn is_path(em: Map<i64, Map<i64, (u64, bool)>>, p: Seq<i64>) -> bool {
    forall|i: int| 0 <= i < p.len() - 1 ==> has_edge(em, #[trigger] p[i], p[i + 1])
}

/// `t` is reachable from `s` along edges of `em`; every id reaches itself.
pub open spec fn reaches(em: Map<i64, Map<i64, (u64, bool)>>, s: i64, t: i64) -> bool {
    exists|p: Seq<i64>|
        p.len() >= 1 && p[0] == s && p.last() == t && is_path(em, p)
}

/// Everything reachable from `s`: the connected component of `s`, as a set.
#[verifier::opaque]
pub open spec fn reach_set(em: Map<i64, Map<i64, (u64, bool)>>, s: i64) -> Set<i64> {
    Set::new(|t: i64| reaches(em, s, t))
}

/// Every id reaches itself.
pub proof fn lemma_reaches_refl(em: Map<i64, Map<i64, (u64, bool)>>, s: i64)
    ensures
        reaches(em, s, s),
{
    let p = seq![s];
    assert(p.len() == 1 && p[0] == s && p.last() == s && is_path(em, p));
}

/// Reachability extends along one more edge.
pub proof fn lemma_reaches_step(em: Map<i64, Map<i64, (u64, bool)>>, s: i64, t: i64, u: i64)
    requires
        reaches(em, s, t),
        has_edge(em, t, u),
    ensures
        reaches(em, s, u),
{
    let p = choose|p: Seq<i64>| p.len() >= 1 && p[0] == s && p.last() == t && is_path(em, p);
    let q = p.push(u);
    assert(q[0] == s && q.last() == u);
    assert forall|i: int| 0 <= i < q.len() - 1 implies has_edge(em, #[trigger] q[i], q[i + 1]) by {
        if i < p.len() - 1 {
            assert(q[i] == p[i] && q[i + 1] == p[i + 1]);
        } else {
            assert(q[i] == p.last() && q[i + 1] == u);
        }
    }
    assert(q.len() >= 1 && q[0] == s && q.last() == u && is_path(em, q));
}

/// A set that holds a path's start and is closed under adjacency holds the
/// path's end.
pub proof fn lemma_path_stays_closed(
    em: Map<i64, Map<i64, (u64, bool)>>,
    p: Seq<i64>,
    closed: Set<i64>,
)
    requires
        is_path(em, p),
        p.len() >= 1,
        closed.contains(p[0]),
        forall|a: i64, b: i64|
            closed.contains(a) && #[trigger] has_edge(em, a, b) ==> closed.contains(b),
    ensures
        closed.contains(p.last()),
    decreases p.len(),
{
    if p.len() > 1 {
        let q = p.drop_last();
        assert(is_path(em, q)) by {
            assert forall|i: int| 0 <= i < q.len() - 1 implies has_edge(
                em,
                #[trigger] q[i],
                q[i + 1],
            ) by {
                assert(q[i] == p[i] && q[i + 1] == p[i + 1]);
            }
        }
        lemma_path_stays_closed(em, q, closed);
        assert(has_edge(em, p[p.len() - 2], p[p.len() - 1]));
        assert(q.last() == p[p.len() - 2]);
    }
}

/// Under a symmetric adjacency, everything reachable from `s` is `s` itself
/// or an adjacency key.
pub proof fn lemma_reach_in_dom(em: Map<i64, Map<i64, (u64, bool)>>, s: i64)
    requires
        crate::graph::symmetric(em),
    ensures
        forall|t: i64| #[trigger] reach_set(em, s).contains(t) ==> t == s || em.contains_key(t),
{
    reveal(reach_set);
    assert forall|t: i64| #[trigger] reach_set(em, s).contains(t) implies t == s
        || em.contains_key(t) by {
        let p = choose|p: Seq<i64>|
            p.len() >= 1 && p[0] == s && p.last() == t && is_path(em, p);
        if p.len() > 1 {
            assert(has_edge(em, p[p.len() - 2], p[p.len() - 1]));
        }
    }
}

/// The keys of an executable adjacency row, as a vector.
fn map_keys(m: &HashMap<i64, (u64, bool)>) -> (r: Vec<i64>)
    ensures
        r@.no_duplicates(),
        r@.to_set() == m@.dom(),
{
    let mut r: Vec<i64> = Vec::new();
    for kref in it: m.keys()
        invariant
            r@.len() == it.index(),
            forall|j: int| 0 <= j < it.index() ==> r@[j] == *(#[trigger] it.seq()[j]),
    {
        r.push(*kref);
    }
    proof {
        let ks = vstd::std_specs::hash::spec_keys_iter(m).remaining();
        assert(r@ =~= ks.unref());
        assert(r@.no_duplicates()) by {
            assert forall|i: int, j: int| 0 <= i < j < r@.len() implies r@[i] != r@[j] by {
                assert(ks[i] != ks[j]);
            }
        }
        assert(r@.to_set() == m@.dom());
    }
    r
}

impl RoadNetwork {
    /// All node ids reachable from `source` over this graph's adjacency, the
    /// source itself included, without duplicates: a full single-source
    /// exploration, the traversal the connectivity reducer relies on. The
    /// adjacency must be symmetric, as a built graph's always is.
    pub fn reachable_from(&self, source: i64) -> (r: Vec<i64>)
        requires
            crate::graph::symmetric(self.edge_map()),
        ensures
            r@.no_duplicates(),
            r@.to_set() == reach_set(self.edge_map(), source),
            r@.len() >= 1,
    {
        let ghost em = self.edge_map();
        let ghost all = em.dom().insert(source);
        proof {
            assert(em.dom() =~= self.edges@.dom());
            assert(all.finite());
        }
        let mut visited: HashSet<i64> = HashSet::new();
        let mut order: Vec<i64> = Vec::new();
        let mut stack: Vec<i64> = Vec::new();
        visited.insert(source);
        order.push(source);
        stack.push(source);
        proof {
            lemma_reaches_refl(em, source);
            assert(order@ =~= Seq::empty().push(source));
            crate::graph::lemma_push_to_set(Seq::empty(), source);
            assert(Seq::<i64>::empty().to_set() =~= Set::empty());
            assert(order@.to_set() =~= visited@);
            vstd::set_lib::lemma_len_subset(visited@, all);
            order@.unique_seq_to_set();
        }
        while stack.len() != 0
            invariant
                crate::graph::symmetric(em),
                visited@ == order@.to_set(),
                order@.no_duplicates(),
                1 <= order@.len() <= all.len(),
                all.finite(),
                all == em.dom().insert(source),
                em == self.edge_map(),
                forall|j: int| 0 <= j < stack@.len() ==> visited@.contains(#[trigger] stack@[j]),
                visited@.contains(source),
                visited@ <= all,
                forall|t: i64| #[trigger] visited@.contains(t) ==> reaches(em, source, t),
                forall|a: i64, b: i64|
                    visited@.contains(a) && !stack@.to_set().contains(a) && #[trigger] has_edge(
                        em,
                        a,
                        b,
                    ) ==> visited@.contains(b),
            decreases all.len() - order@.len(), stack@.len(),
        {
            let ghost spre = stack@;
            let ghost order0 = order@.len() as int;
            let popped = stack.pop();
            match popped {
                None => {
                    proof {
                        assert(false);
                    }
                },
                Some(u) => {
                    let ghost stack_entry = stack@;
                    proof {
                        assert(spre =~= stack@.push(u));
                    }
                    match self.edges.get(&u) {
                        Some(inner) => {
                            proof {
                                assert(em.contains_key(u) && em[u] == inner@);
                            }
                            let neighbors = map_keys(inner);
                            let mut ni: usize = 0;
                            while ni < neighbors.len()
                                invariant
                                    crate::graph::symmetric(em),
                                    neighbors@.to_set() == inner@.dom(),
                                    inner@ == em[u],
                                    em.contains_key(u),
                                    ni <= neighbors@.len(),
                                    em == self.edge_map(),
                                    all == em.dom().insert(source),
                                    all.finite(),
                                    visited@ == order@.to_set(),
                                    order@.no_duplicates(),
                                    1 <= order@.len() <= all.len(),
                                    forall|j: int|
                                        0 <= j < stack@.len() ==> visited@.contains(
                                            #[trigger] stack@[j],
                                        ),
                                    visited@.contains(source),
                                    visited@.contains(u),
                                    visited@ <= all,
                                    forall|t: i64| #[trigger]
                                        visited@.contains(t) ==> reaches(em, source, t),
                                    forall|a: i64, b: i64|
                                        visited@.contains(a) && !stack@.to_set().contains(a) && a
                                            != u && #[trigger] has_edge(em, a, b)
                                            ==> visited@.contains(b),
                                    forall|j: int|
                                        0 <= j < ni ==> visited@.contains(#[trigger] neighbors@[j]),
                                    order@.len() - order0 == stack@.len() - stack_entry.len(),
                                    order0 <= order@.len(),
                                    forall|x: i64|
                                        stack_entry.to_set().contains(x) ==> #[trigger]
                                            stack@.to_set().contains(x),
                                decreases neighbors@.len() - ni,
                            {
                                let b = neighbors[ni];
                                proof {
                                    assert(neighbors@.to_set().contains(neighbors@[ni as int]));
                                    assert(has_edge(em, u, b));
                                    assert(em.contains_key(b));
                                }
                                if !visited.contains(&b) {
                                    let ghost prev_order = order@;
                                    let ghost prev_stack = stack@;
                                    visited.insert(b);
                                    order.push(b);
                                    stack.push(b);
                                    proof {
                                        lemma_reaches_step(em, source, u, b);
                                        crate::graph::lemma_push_to_set(prev_order, b);
                                        crate::graph::lemma_push_no_duplicates(prev_order, b);
                                        crate::graph::lemma_push_to_set(prev_stack, b);
                                        vstd::set_lib::lemma_len_subset(visited@, all);
                                        order@.unique_seq_to_set();
                                    }
                                }
                                ni = ni + 1;
                            }
                            proof {
                                assert forall|a: i64, b: i64|
                                    visited@.contains(a) && !stack@.to_set().contains(a)
                                        && #[trigger] has_edge(em, a, b) implies visited@.contains(
                                    b,
                                ) by {
                                    if a == u {
                                        assert(inner@.dom().contains(b));
                                        assert(neighbors@.to_set().contains(b));
                                        let j = choose|j: int|
                                            0 <= j < neighbors@.len() && neighbors@[j] == b;
                                        assert(visited@.contains(neighbors@[j]));
                                    }
                                }
                            }
                        },
                        None => {
                            proof {
                                crate::graph::lemma_push_to_set(stack_entry, u);
                                assert forall|a: i64, b: i64|
                                    visited@.contains(a) && !stack@.to_set().contains(a)
                                        && #[trigger] has_edge(em, a, b) implies visited@.contains(
                                    b,
                                ) by {
                                    if a == u {
                                        assert(!em.contains_key(u));
                                    } else {
                                        assert(!spre.to_set().contains(a));
                                    }
                                }
                            }
                        },
                    }
                },
            }
        }
        proof {
            reveal(reach_set);
            assert(stack@.to_set() =~= Set::empty());
            assert forall|a: i64, b: i64|
                visited@.contains(a) && #[trigger] has_edge(em, a, b) implies visited@.contains(
                b,
            ) by {
                assert(!stack@.to_set().contains(a));
            }
            assert forall|t: i64| reach_set(em, source).contains(t) implies visited@.contains(
                t,
            ) by {
                let p = choose|p: Seq<i64>|
                    p.len() >= 1 && p[0] == source && p.last() == t && is_path(em, p);
                lemma_path_stays_closed(em, p, visited@);
            }
            assert(order@.to_set() =~= reach_set(em, source));
        }
        order
    }
}

} // verus!
