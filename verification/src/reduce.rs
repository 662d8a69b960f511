//! The connectivity reducer: probe the graph with single-source traversals,
//! group nodes by the probe that discovered them, and rebuild the graph from
//! the largest discovered group.

use vstd::prelude::*;
use std::collections::HashMap;
use crate::geom::Node;
use crate::graph::{RoadNetwork, spec_build_edges, valid_input};
use crate::reach::{reaches, reach_set, lemma_reaches_refl, lemma_reach_in_dom};

verus! {

broadcast use vstd::std_specs::hash::group_hash_axioms;

/// The nodes discovered by a sequence of probes: the union of the probed
/// sources' components.
pub open spec fn union_reach(em: Map<i64, Map<i64, (u64, bool)>>, probes: Seq<i64>) -> Set<i64>
    decreases probes.len(),
{
    if probes.len() == 0 {
        Set::empty()
    } else {
        union_reach(em, probes.drop_last()).union(reach_set(em, probes.last()))
    }
}

/// Extending a probe sequence by one fresh source extends the discovered set
/// by that source's component and preserves the run's bookkeeping.
proof fn lemma_probe_push(
    em: Map<i64, Map<i64, (u64, bool)>>,
    sources0: Seq<i64>,
    source: i64,
    half: int,
)
    requires
        !union_reach(em, sources0).contains(source),
        union_reach(em, sources0).len() <= half,
        forall|j: int|
            0 <= j < sources0.len() ==> !union_reach(em, sources0.take(j)).contains(
                #[trigger] sources0[j],
            ),
        forall|j: int|
            0 <= j < sources0.len() - 1 ==> union_reach(em, #[trigger] sources0.take(j + 1)).len()
                <= half,
    ensures
        union_reach(em, sources0.push(source)) == union_reach(em, sources0).union(
            reach_set(em, source),
        ),
        forall|j: int|
            0 <= j < sources0.push(source).len() ==> !union_reach(
                em,
                sources0.push(source).take(j),
            ).contains(#[trigger] sources0.push(source)[j]),
        forall|j: int|
            0 <= j < sources0.push(source).len() - 1 ==> union_reach(
                em,
                #[trigger] sources0.push(source).take(j + 1),
            ).len() <= half,
{
    let pushed = sources0.push(source);
    assert(pushed.drop_last() =~= sources0);
    assert(union_reach(em, pushed) == union_reach(em, sources0).union(reach_set(em, source)));
    assert forall|j: int| 0 <= j < pushed.len() implies !union_reach(em, pushed.take(j)).contains(
        #[trigger] pushed[j],
    ) by {
        if j < sources0.len() {
            assert(pushed.take(j) =~= sources0.take(j));
            assert(pushed[j] == sources0[j]);
        } else {
            assert(pushed.take(j) =~= sources0);
        }
    }
    assert forall|j: int| 0 <= j < pushed.len() - 1 implies union_reach(
        em,
        #[trigger] pushed.take(j + 1),
    ).len() <= half by {
        if j + 1 <= sources0.len() - 1 {
            assert(pushed.take(j + 1) =~= sources0.take(j + 1));
        } else {
            assert(pushed.take(j + 1) =~= sources0);
        }
    }
}

impl RoadNetwork {
    /// A probe run of the reducer over this graph: every probe is a node no
    /// earlier probe discovered; no proper prefix of the run crosses the
    /// half-of-all-nodes threshold; and the run stops only once every node is
    /// discovered or the threshold is crossed.
    #[verifier::opaque]
    pub open spec fn probe_run(&self, probes: Seq<i64>) -> bool {
        &&& forall|j: int|
            0 <= j < probes.len() ==> self.nodes@.contains_key(#[trigger] probes[j])
                && !union_reach(self.edge_map(), probes.take(j)).contains(probes[j])
        &&& forall|j: int|
            0 <= j < probes.len() - 1 ==> union_reach(
                self.edge_map(),
                #[trigger] probes.take(j + 1),
            ).len() <= self.nodes@.dom().len() / 2
        &&& (self.nodes@.dom() <= union_reach(self.edge_map(), probes) || union_reach(
            self.edge_map(),
            probes,
        ).len() > self.nodes@.dom().len() / 2)
    }

    /// Probe `k` discovered the largest component of the run, and every
    /// earlier probe discovered a strictly smaller one: the earliest largest
    /// group wins.
    #[verifier::opaque]
    pub open spec fn first_largest(&self, probes: Seq<i64>, k: int) -> bool {
        &&& 0 <= k < probes.len()
        &&& forall|j: int|
            0 <= j < probes.len() ==> reach_set(self.edge_map(), #[trigger] probes[j]).len()
                <= reach_set(self.edge_map(), probes[k]).len()
        &&& forall|j: int|
            0 <= j < k ==> reach_set(self.edge_map(), #[trigger] probes[j]).len() < reach_set(
                self.edge_map(),
                probes[k],
            ).len()
    }

    /// Every node reaches every node: the graph is one connected component.
    pub open spec fn fully_connected(&self) -> bool {
        forall|a: i64, b: i64|
            self.nodes@.contains_key(a) && self.nodes@.contains_key(b) ==> #[trigger] reaches(
                self.edge_map(),
                a,
                b,
            )
    }

    /// Some node of the graph that is not yet a key of `visited`, or `None`
    /// once every node is: the query that drives the reducer's probing.
    pub fn unvisited_node(&self, visited: &HashMap<i64, u64>) -> (r: Option<i64>)
        requires
            self.raw_nodes@.to_set() == self.nodes@.dom(),
        ensures
            match r {
                Some(id) => self.nodes@.contains_key(id) && !visited@.contains_key(id),
                None => self.nodes@.dom() <= visited@.dom(),
            },
    {
        let mut i: usize = 0;
        while i < self.raw_nodes.len()
            invariant
                i <= self.raw_nodes@.len(),
                self.raw_nodes@.to_set() == self.nodes@.dom(),
                forall|j: int| 0 <= j < i ==> visited@.contains_key(#[trigger] self.raw_nodes@[j]),
            decreases self.raw_nodes@.len() - i,
        {
            let id = self.raw_nodes[i];
            if !visited.contains_key(&id) {
                proof {
                    assert(self.raw_nodes@.to_set().contains(id));
                }
                return Some(id);
            }
            i = i + 1;
        }
        proof {
            assert forall|k: i64| self.nodes@.dom().contains(k) implies visited@.dom().contains(
                k,
            ) by {
                assert(self.raw_nodes@.to_set().contains(k));
                let j = choose|j: int|
                    0 <= j < self.raw_nodes@.len() && self.raw_nodes@[j] == k;
                assert(visited@.contains_key(self.raw_nodes@[j]));
            }
        }
        None
    }

    /// Reduce the graph to one connected component: probe unvisited nodes
    /// with full traversals, marking each discovery round, until every node
    /// is grouped or more than half of all nodes have been seen; keep the
    /// largest group, the earliest winning a tie, and rebuild a fresh graph
    /// from that group's points and the retained way list.
    ///
    /// Reducing an already fully connected graph gives back the same node map
    /// and the same adjacency, costs and flags included.
    #[verifier::rlimit(100)]
    pub fn reduce_to_largest_connected_component(self) -> (r: Self)
        requires
            self.wf(),
            self.built(),
        ensures
            r.raw_ways@ == self.raw_ways@,
            r.wf(),
            r.built(),
            crate::graph::symmetric(r.edge_map()),
            forall|k: i64| #[trigger]
                r.nodes@.contains_key(k) ==> r.edge_map().contains_key(k) && exists|b: i64|
                    r.edge_map()[k].contains_key(b),
            r.raw_nodes@.to_set() == r.nodes@.dom(),
            self.nodes@.dom().len() == 0 ==> r.nodes@.dom().len() == 0,
            self.nodes@.dom().len() > 0 ==> exists|s: i64|
                {
                    &&& #[trigger] self.nodes@.contains_key(s)
                    &&& r.edge_map() == spec_build_edges(
                        self.nodes@.restrict(reach_set(self.edge_map(), s)),
                        self.raw_ways@,
                    )
                    &&& r.nodes@ == self.nodes@.restrict(reach_set(self.edge_map(), s)).restrict(
                        r.edge_map().dom(),
                    )
                },
            self.nodes@.dom().len() > 0 ==> exists|probes: Seq<i64>, k: int|
                {
                    &&& self.probe_run(probes)
                    &&& #[trigger] self.first_largest(probes, k)
                    &&& r.edge_map() == spec_build_edges(
                        self.nodes@.restrict(reach_set(self.edge_map(), probes[k])),
                        self.raw_ways@,
                    )
                    &&& r.nodes@ == self.nodes@.restrict(
                        reach_set(self.edge_map(), probes[k]),
                    ).restrict(r.edge_map().dom())
                },
            self.fully_connected() ==> r.nodes@ == self.nodes@ && r.edge_map() == self.edge_map(),
    {
        let ghost em = self.edge_map();
        let ghost node_dom = self.nodes@.dom();
        let mut visited: HashMap<i64, u64> = HashMap::new();
        let mut counter: u64 = 0;
        let mut groups: Vec<Vec<i64>> = Vec::new();
        let ghost mut sources: Seq<i64> = Seq::empty();
        proof {
            assert(visited@.dom() =~= Set::<i64>::empty());
        }
        loop
            invariant_except_break
                visited@.dom().len() <= node_dom.len() / 2,
            invariant
                self.wf(),
                self.built(),
                em == self.edge_map(),
                node_dom == self.nodes@.dom(),
                counter as int == groups@.len(),
                sources.len() == groups@.len(),
                forall|g: int|
                    0 <= g < groups@.len() ==> {
                        &&& self.nodes@.contains_key(#[trigger] sources[g])
                        &&& groups@[g]@.to_set() == reach_set(em, sources[g])
                        &&& groups@[g]@.no_duplicates()
                    },
                visited@.dom() <= node_dom,
                counter as int <= visited@.dom().len(),
                groups@.len() == 0 ==> visited@.dom() =~= Set::<i64>::empty(),
                visited@.dom() == union_reach(em, sources),
                forall|j: int|
                    0 <= j < sources.len() ==> !union_reach(em, sources.take(j)).contains(
                        #[trigger] sources[j],
                    ),
                forall|j: int|
                    0 <= j < sources.len() - 1 ==> union_reach(
                        em,
                        #[trigger] sources.take(j + 1),
                    ).len() <= node_dom.len() / 2,
            ensures
                node_dom <= visited@.dom() || groups@.len() > 0,
                node_dom <= visited@.dom() || visited@.dom().len() > node_dom.len() / 2,
            decreases node_dom.len() - visited@.dom().len(),
        {
            let next = self.unvisited_node(&visited);
            match next {
                None => {
                    break ;
                },
                Some(source) => {
                    let ghost vis0 = visited@.dom();
                    proof {
                        vstd::set_lib::lemma_len_subset(vis0, node_dom.remove(source));
                        assert(vstd::std_specs::hash::spec_hash_map_len(&self.nodes) as int
                            == node_dom.len());
                    }
                    counter = counter + 1;
                    let comp = self.reachable_from(source);
                    proof {
                        lemma_reaches_refl(em, source);
                        lemma_reach_in_dom(em, source);
                        assert(comp@.to_set().contains(source)) by {
                            reveal(reach_set);
                        }
                        assert forall|t: i64| comp@.to_set().contains(t) implies node_dom.contains(
                            t,
                        ) by {
                            assert(reach_set(em, source).contains(t));
                        }
                    }
                    let mut ci: usize = 0;
                    while ci < comp.len()
                        invariant
                            ci <= comp@.len(),
                            visited@.dom() == vis0.union(comp@.take(ci as int).to_set()),
                        decreases comp@.len() - ci,
                    {
                        let id = comp[ci];
                        visited.insert(id, counter);
                        proof {
                            assert(comp@.take(ci as int + 1) =~= comp@.take(ci as int).push(id));
                            crate::graph::lemma_push_to_set(comp@.take(ci as int), id);
                            assert(visited@.dom() =~= vis0.union(
                                comp@.take(ci as int + 1).to_set(),
                            ));
                        }
                        ci = ci + 1;
                    }
                    proof {
                        assert(comp@.take(comp@.len() as int) =~= comp@);
                        assert(visited@.dom() =~= vis0.union(comp@.to_set()));
                        assert(visited@.dom() <= node_dom);
                        vstd::set_lib::lemma_len_subset(vis0, visited@.dom().remove(source));
                    }
                    groups.push(comp);
                    proof {
                        lemma_probe_push(em, sources, source, node_dom.len() as int / 2);
                        sources = sources.push(source);
                        assert(union_reach(em, sources) == vis0.union(comp@.to_set()));
                    }
                    if visited.len() > self.nodes.len() / 2 {
                        break ;
                    }
                },
            }
        }
        let mut lcc: HashMap<i64, Node> = HashMap::new();
        let ghost mut chosen: i64 = 0;
        let ghost mut chosen_idx: int = 0;
        if groups.len() > 0 {
            let mut best: usize = 0;
            let mut best_len: usize = groups[0].len();
            let mut gi: usize = 1;
            while gi < groups.len()
                invariant
                    1 <= gi <= groups@.len(),
                    best < gi,
                    best_len == groups@[best as int]@.len(),
                    forall|j: int| 0 <= j < gi ==> #[trigger] groups@[j]@.len() <= best_len,
                    forall|j: int| 0 <= j < best ==> #[trigger] groups@[j]@.len() < best_len,
                decreases groups@.len() - gi,
            {
                if groups[gi].len() > best_len {
                    best = gi;
                    best_len = groups[gi].len();
                }
                gi = gi + 1;
            }
            proof {
                chosen = sources[best as int];
                chosen_idx = best as int;
                lemma_reach_in_dom(em, chosen);
                assert forall|j: int|
                    0 <= j < sources.len() implies reach_set(em, #[trigger] sources[j]).len()
                    == groups@[j]@.len() by {
                    assert(self.nodes@.contains_key(sources[j]) && groups@[j]@.to_set()
                        == reach_set(em, sources[j]) && groups@[j]@.no_duplicates());
                    groups@[j]@.unique_seq_to_set();
                }
                assert forall|j: int|
                    0 <= j < sources.len() implies reach_set(em, #[trigger] sources[j]).len()
                    <= reach_set(em, chosen).len() by {
                    assert(groups@[j]@.len() <= best_len);
                }
                assert forall|j: int|
                    0 <= j < chosen_idx implies reach_set(em, #[trigger] sources[j]).len()
                    < reach_set(em, chosen).len() by {
                    assert(groups@[j]@.len() < best_len);
                }
            }
            let grp = &groups[best];
            let ghost comp_set = reach_set(em, chosen);
            let mut ci: usize = 0;
            proof {
                assert(lcc@ =~= self.nodes@.restrict(grp@.take(0).to_set()));
            }
            while ci < grp.len()
                invariant
                    ci <= grp@.len(),
                    grp@.to_set() == comp_set,
                    comp_set == reach_set(em, chosen),
                    node_dom == self.nodes@.dom(),
                    self.wf(),
                    em == self.edge_map(),
                    self.nodes@.contains_key(chosen),
                    lcc@ == self.nodes@.restrict(grp@.take(ci as int).to_set()),
                    forall|t: i64| #[trigger] comp_set.contains(t) ==> t == chosen
                        || em.contains_key(t),
                decreases grp@.len() - ci,
            {
                let id = grp[ci];
                proof {
                    assert(grp@.to_set().contains(id));
                    assert(self.nodes@.contains_key(id));
                }
                let found = self.nodes.get(&id);
                let nd = *found.unwrap();
                lcc.insert(id, nd);
                proof {
                    assert(grp@.take(ci as int + 1) =~= grp@.take(ci as int).push(id));
                    crate::graph::lemma_push_to_set(grp@.take(ci as int), id);
                    assert(lcc@ =~= self.nodes@.restrict(grp@.take(ci as int + 1).to_set()));
                }
                ci = ci + 1;
            }
            proof {
                assert(grp@.take(grp@.len() as int) =~= grp@);
            }
        } else {
            proof {
                assert(node_dom <= visited@.dom());
                assert(node_dom =~= Set::<i64>::empty());
                assert(lcc@ =~= Map::<i64, Node>::empty());
            }
        }
        let ghost lcc_snap = lcc@;
        proof {
            assert forall|k: i64| #[trigger] lcc_snap.contains_key(k) implies lcc_snap[k].id == k
                && crate::geom::coord_ok(lcc_snap[k]) by {
                assert(self.nodes@.contains_key(k));
            }
            assert(valid_input(lcc_snap, self.raw_ways@));
        }
        let reduced = RoadNetwork::new(lcc, self.raw_ways);
        proof {
            lemma_reduce_finish(
                self,
                reduced,
                em,
                node_dom,
                sources,
                chosen,
                chosen_idx,
                lcc_snap,
                groups@.len() as int,
                visited@.dom(),
            );
        }
        reduced
    }
}

/// From the probe loop's final bookkeeping and the builder's contract on the
/// rebuilt graph, conclude the reducer's promises.
proof fn lemma_reduce_finish(
    g: RoadNetwork,
    reduced: RoadNetwork,
    em: Map<i64, Map<i64, (u64, bool)>>,
    node_dom: Set<i64>,
    sources: Seq<i64>,
    chosen: i64,
    chosen_idx: int,
    lcc_snap: Map<i64, Node>,
    groups_len: int,
    visited_dom: Set<i64>,
)
    requires
        g.wf(),
        g.built(),
        em == g.edge_map(),
        node_dom == g.nodes@.dom(),
        node_dom.finite(),
        node_dom <= visited_dom || groups_len > 0,
        node_dom <= visited_dom || visited_dom.len() > node_dom.len() / 2,
        visited_dom == union_reach(em, sources),
        sources.len() == groups_len,
        groups_len == 0 ==> visited_dom =~= Set::<i64>::empty(),
        forall|j: int|
            0 <= j < sources.len() ==> g.nodes@.contains_key(#[trigger] sources[j])
                && !union_reach(em, sources.take(j)).contains(sources[j]),
        forall|j: int|
            0 <= j < sources.len() - 1 ==> union_reach(em, #[trigger] sources.take(j + 1)).len()
                <= node_dom.len() / 2,
        groups_len > 0 ==> {
            &&& 0 <= chosen_idx < sources.len()
            &&& chosen == sources[chosen_idx]
            &&& lcc_snap == g.nodes@.restrict(reach_set(em, chosen))
            &&& g.nodes@.contains_key(chosen)
            &&& forall|j: int|
                0 <= j < sources.len() ==> reach_set(em, #[trigger] sources[j]).len() <= reach_set(
                    em,
                    chosen,
                ).len()
            &&& forall|j: int|
                0 <= j < chosen_idx ==> reach_set(em, #[trigger] sources[j]).len() < reach_set(
                    em,
                    chosen,
                ).len()
        },
        groups_len == 0 ==> lcc_snap =~= Map::<i64, Node>::empty(),
        reduced.raw_ways@ == g.raw_ways@,
        reduced.edge_map() == spec_build_edges(lcc_snap, g.raw_ways@),
        reduced.nodes@ == lcc_snap.restrict(spec_build_edges(lcc_snap, g.raw_ways@).dom()),
    ensures
        node_dom.len() == 0 ==> reduced.nodes@.dom().len() == 0,
        node_dom.len() > 0 ==> exists|s: i64|
            {
                &&& #[trigger] g.nodes@.contains_key(s)
                &&& reduced.edge_map() == spec_build_edges(
                    g.nodes@.restrict(reach_set(g.edge_map(), s)),
                    g.raw_ways@,
                )
                &&& reduced.nodes@ == g.nodes@.restrict(reach_set(g.edge_map(), s)).restrict(
                    reduced.edge_map().dom(),
                )
            },
        node_dom.len() > 0 ==> exists|probes: Seq<i64>, k: int|
            {
                &&& g.probe_run(probes)
                &&& #[trigger] g.first_largest(probes, k)
                &&& reduced.edge_map() == spec_build_edges(
                    g.nodes@.restrict(reach_set(g.edge_map(), probes[k])),
                    g.raw_ways@,
                )
                &&& reduced.nodes@ == g.nodes@.restrict(reach_set(g.edge_map(), probes[k])).restrict(
                    reduced.edge_map().dom(),
                )
            },
        g.fully_connected() ==> reduced.nodes@ == g.nodes@ && reduced.edge_map() == g.edge_map(),
{
    if node_dom.len() > 0 {
        if node_dom =~= Set::<i64>::empty() {
            assert(false);
        }
        assert(groups_len > 0) by {
            if groups_len == 0 {
                let k = node_dom.choose();
                assert(node_dom.contains(k));
            }
        }
        assert(g.probe_run(sources)) by {
            reveal(RoadNetwork::probe_run);
        }
        assert(g.first_largest(sources, chosen_idx)) by {
            reveal(RoadNetwork::first_largest);
        }
        assert(chosen == sources[chosen_idx]);
    }
    if node_dom.len() == 0 {
        assert(g.nodes@ =~= Map::<i64, Node>::empty()) by {
            if exists|k: i64| g.nodes@.contains_key(k) {
                let k = choose|k: i64| g.nodes@.contains_key(k);
                assert(node_dom.contains(k));
                vstd::set_lib::lemma_len_subset(Set::<i64>::empty().insert(k), node_dom);
            }
        }
        assert(lcc_snap =~= g.nodes@) by {
            if groups_len > 0 {
                assert(node_dom.contains(chosen));
            }
        }
        assert(reduced.nodes@.dom() <= lcc_snap.dom());
        assert(reduced.nodes@.dom() =~= Set::<i64>::empty());
    }
    if g.fully_connected() {
        if node_dom.len() == 0 {
            assert(lcc_snap =~= g.nodes@);
        } else {
            assert forall|k: i64| g.nodes@.contains_key(k) implies reach_set(em, chosen).contains(
                k,
            ) by {
                reveal(reach_set);
                assert(reaches(em, chosen, k));
            }
            assert(lcc_snap =~= g.nodes@);
        }
        assert(reduced.edge_map() == spec_build_edges(g.nodes@, g.raw_ways@));
        assert(reduced.edge_map() == em);
        assert(g.nodes@.restrict(em.dom()) =~= g.nodes@);
        assert(reduced.nodes@ == g.nodes@);
    }
}

} // verus!
