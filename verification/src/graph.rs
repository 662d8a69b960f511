//! The road graph: nodes, bidirectional weighted adjacency, and the builder
//! that derives them from point and way records.

use vstd::prelude::*;
use std::collections::HashMap;
use crate::geom::{Node, coord_ok, valid_speed, spec_cost, segment_cost};

verus! {

broadcast use vstd::std_specs::hash::group_hash_axioms;

/// A way: an ordered chain of point-id references with a derived speed (km/h).
#[derive(Debug, PartialEq, Hash, Eq, Clone)]
pub struct Way {
    pub id: i64,
    pub speed: u64,
    pub refs: Vec<i64>,
}

/// The graph: nodes by id, adjacency `tail -> head -> (cost, flag)`, and the
/// raw inputs retained for later rebuilding.
#[derive(Debug, Clone)]
pub struct RoadNetwork {
    pub nodes: HashMap<i64, Node>,
    pub edges: HashMap<i64, HashMap<i64, (u64, bool)>>,
    pub raw_ways: Vec<Way>,
    pub raw_nodes: Vec<i64>,
}

/// The mathematical adjacency of an executable edge table.
pub open spec fn edge_map_of(edges: HashMap<i64, HashMap<i64, (u64, bool)>>) -> Map<
    i64,
    Map<i64, (u64, bool)>,
> {
    Map::new(|k: i64| edges@.contains_key(k), |k: i64| edges@[k]@)
}

/// There is an edge from `a` to `b`.
pub open spec fn has_edge(em: Map<i64, Map<i64, (u64, bool)>>, a: i64, b: i64) -> bool {
    em.contains_key(a) && em[a].contains_key(b)
}

/// Every edge exists in both directions, with the same cost and flag.
pub open spec fn symmetric(em: Map<i64, Map<i64, (u64, bool)>>) -> bool {
    forall|a: i64, b: i64| #[trigger]
        has_edge(em, a, b) ==> has_edge(em, b, a) && em[b][a] == em[a][b]
}

/// Insert the directed edge `a -> b` with cost `c` and a clear flag,
/// overwriting any earlier cost (last write wins).
pub open spec fn edge_insert(
    em: Map<i64, Map<i64, (u64, bool)>>,
    a: i64,
    b: i64,
    c: u64,
) -> Map<i64, Map<i64, (u64, bool)>> {
    let inner = if em.contains_key(a) {
        em[a]
    } else {
        Map::empty()
    };
    em.insert(a, inner.insert(b, (c, false)))
}

/// One way segment: tail id, head id, and the way's speed.
pub open spec fn seg_ok(nodes: Map<i64, Node>, s: (i64, i64, u64)) -> bool {
    nodes.contains_key(s.0) && nodes.contains_key(s.1)
}

/// Process one segment: if both endpoints resolve, insert the edge in both
/// directions; otherwise skip it silently.
pub open spec fn seg_step(
    em: Map<i64, Map<i64, (u64, bool)>>,
    nodes: Map<i64, Node>,
    s: (i64, i64, u64),
) -> Map<i64, Map<i64, (u64, bool)>> {
    if seg_ok(nodes, s) {
        let c = spec_cost(nodes[s.0], nodes[s.1], s.2);
        edge_insert(edge_insert(em, s.0, s.1, c), s.1, s.0, c)
    } else {
        em
    }
}

/// Fold `seg_step` over a sequence of segments, left to right.
pub open spec fn build_edges_rec(
    em: Map<i64, Map<i64, (u64, bool)>>,
    nodes: Map<i64, Node>,
    segs: Seq<(i64, i64, u64)>,
) -> Map<i64, Map<i64, (u64, bool)>>
    decreases segs.len(),
{
    if segs.len() == 0 {
        em
    } else {
        build_edges_rec(seg_step(em, nodes, segs[0]), nodes, segs.subrange(1, segs.len() as int))
    }
}

/// The consecutive reference pairs of a way, each with the way's speed.
pub open spec fn way_segs(w: Way) -> Seq<(i64, i64, u64)> {
    Seq::new(
        if w.refs@.len() == 0 {
            0
        } else {
            (w.refs@.len() - 1) as nat
        },
        |j: int| (w.refs@[j], w.refs@[j + 1], w.speed),
    )
}

/// All segments of a list of ways, in order.
pub open spec fn ways_segs(ways: Seq<Way>) -> Seq<(i64, i64, u64)>
    decreases ways.len(),
{
    if ways.len() == 0 {
        Seq::empty()
    } else {
        ways_segs(ways.drop_last()) + way_segs(ways.last())
    }
}

/// The adjacency the builder derives from a point mapping and a way list.
pub open spec fn spec_build_edges(nodes: Map<i64, Node>, ways: Seq<Way>) -> Map<
    i64,
    Map<i64, (u64, bool)>,
> {
    build_edges_rec(Map::empty(), nodes, ways_segs(ways))
}

/// The inputs the builder accepts: every point keyed by its own id and
/// carrying a genuine coordinate, every way carrying a valid speed.
pub open spec fn valid_input(nodes: Map<i64, Node>, ways: Seq<Way>) -> bool {
    &&& forall|k: i64| #[trigger] nodes.contains_key(k) ==> nodes[k].id == k && coord_ok(nodes[k])
    &&& forall|j: int| 0 <= j < ways.len() ==> valid_speed(#[trigger] ways[j].speed)
}

impl RoadNetwork {
    /// The mathematical adjacency of this graph.
    pub open spec fn edge_map(&self) -> Map<i64, Map<i64, (u64, bool)>> {
        edge_map_of(self.edges)
    }

    /// Structural well-formedness: the node list mirrors the node map, edges
    /// are symmetric, edge keys and node keys coincide, no node is isolated,
    /// nodes are keyed by their own ids with genuine coordinates, and the
    /// retained ways carry valid speeds.
    pub open spec fn wf(&self) -> bool {
        &&& self.raw_nodes@.no_duplicates()
        &&& self.raw_nodes@.to_set() == self.nodes@.dom()
        &&& symmetric(self.edge_map())
        &&& forall|k: i64| #[trigger]
            self.edge_map().contains_key(k) ==> self.nodes@.contains_key(k)
        &&& forall|k: i64| #[trigger]
            self.nodes@.contains_key(k) ==> self.edge_map().contains_key(k)
        &&& forall|k: i64| #[trigger]
            self.edge_map().contains_key(k) ==> exists|b: i64| self.edge_map()[k].contains_key(b)
        &&& forall|k: i64| #[trigger]
            self.nodes@.contains_key(k) ==> self.nodes@[k].id == k && coord_ok(self.nodes@[k])
        &&& forall|j: int| 0 <= j < self.raw_ways@.len() ==> valid_speed(
            #[trigger] self.raw_ways@[j].speed,
        )
    }

    /// The graph is exactly what the builder produces from its own node map
    /// and retained way list.
    pub open spec fn built(&self) -> bool {
        self.edge_map() == spec_build_edges(self.nodes@, self.raw_ways@)
    }
}

/// Folding distributes over concatenation of segment sequences.
pub proof fn lemma_build_edges_app(
    em: Map<i64, Map<i64, (u64, bool)>>,
    nodes: Map<i64, Node>,
    s1: Seq<(i64, i64, u64)>,
    s2: Seq<(i64, i64, u64)>,
)
    ensures
        build_edges_rec(em, nodes, s1 + s2) == build_edges_rec(
            build_edges_rec(em, nodes, s1),
            nodes,
            s2,
        ),
    decreases s1.len(),
{
    if s1.len() == 0 {
        assert(s1 + s2 =~= s2);
    } else {
        assert((s1 + s2)[0] == s1[0]);
        assert((s1 + s2).subrange(1, (s1 + s2).len() as int) =~= s1.subrange(
            1,
            s1.len() as int,
        ) + s2);
        lemma_build_edges_app(seg_step(em, nodes, s1[0]), nodes, s1.subrange(1, s1.len() as int), s2);
    }
}

/// Folding one more segment applies one more step.
pub proof fn lemma_build_edges_snoc(
    em: Map<i64, Map<i64, (u64, bool)>>,
    nodes: Map<i64, Node>,
    segs: Seq<(i64, i64, u64)>,
    s: (i64, i64, u64),
)
    ensures
        build_edges_rec(em, nodes, segs.push(s)) == seg_step(
            build_edges_rec(em, nodes, segs),
            nodes,
            s,
        ),
{
    let single = seq![s];
    assert(segs.push(s) =~= segs + single);
    lemma_build_edges_app(em, nodes, segs, single);
    let x = build_edges_rec(em, nodes, segs);
    assert(single[0] == s);
    assert(single.subrange(1, 1) =~= Seq::<(i64, i64, u64)>::empty());
    assert(build_edges_rec(x, nodes, single) == build_edges_rec(
        seg_step(x, nodes, s),
        nodes,
        single.subrange(1, 1),
    ));
    assert(build_edges_rec(seg_step(x, nodes, s), nodes, single.subrange(1, 1)) == seg_step(
        x,
        nodes,
        s,
    ));
}

/// One more way contributes exactly its own segments.
pub proof fn lemma_ways_segs_snoc(ways: Seq<Way>, i: int)
    requires
        0 <= i < ways.len(),
    ensures
        ways_segs(ways.take(i + 1)) == ways_segs(ways.take(i)) + way_segs(ways[i]),
{
    let t = ways.take(i + 1);
    assert(t.drop_last() =~= ways.take(i));
    assert(t.last() == ways[i]);
}

/// Folding never removes adjacency keys.
pub proof fn lemma_build_edges_dom_grows(
    em: Map<i64, Map<i64, (u64, bool)>>,
    nodes: Map<i64, Node>,
    segs: Seq<(i64, i64, u64)>,
)
    ensures
        em.dom() <= build_edges_rec(em, nodes, segs).dom(),
    decreases segs.len(),
{
    if segs.len() > 0 {
        let em1 = seg_step(em, nodes, segs[0]);
        assert(em.dom() <= em1.dom());
        lemma_build_edges_dom_grows(em1, nodes, segs.subrange(1, segs.len() as int));
    }
}

/// Every adjacency key the fold adds is a key of the point mapping.
pub proof fn lemma_build_edges_dom_in_nodes(
    em: Map<i64, Map<i64, (u64, bool)>>,
    nodes: Map<i64, Node>,
    segs: Seq<(i64, i64, u64)>,
)
    requires
        forall|k: i64| #[trigger] em.contains_key(k) ==> nodes.contains_key(k),
    ensures
        forall|k: i64| #[trigger]
            build_edges_rec(em, nodes, segs).contains_key(k) ==> nodes.contains_key(k),
    decreases segs.len(),
{
    if segs.len() > 0 {
        let em1 = seg_step(em, nodes, segs[0]);
        let rest = segs.subrange(1, segs.len() as int);
        lemma_build_edges_dom_in_nodes(em1, nodes, rest);
        assert forall|k: i64| #[trigger]
            build_edges_rec(em, nodes, segs).contains_key(k) implies nodes.contains_key(k) by {
            assert(build_edges_rec(em1, nodes, rest).contains_key(k));
        }
    }
}

/// The endpoints of every segment that resolves land in the fold's key set.
pub proof fn lemma_build_edges_covers(
    em: Map<i64, Map<i64, (u64, bool)>>,
    nodes: Map<i64, Node>,
    segs: Seq<(i64, i64, u64)>,
)
    ensures
        forall|k: int|
            0 <= k < segs.len() && seg_ok(nodes, #[trigger] segs[k]) ==> {
                let out = build_edges_rec(em, nodes, segs);
                out.contains_key(segs[k].0) && out.contains_key(segs[k].1)
            },
    decreases segs.len(),
{
    if segs.len() > 0 {
        let em1 = seg_step(em, nodes, segs[0]);
        let rest = segs.subrange(1, segs.len() as int);
        lemma_build_edges_covers(em1, nodes, rest);
        lemma_build_edges_dom_grows(em1, nodes, rest);
        assert forall|k: int|
            0 <= k < segs.len() && seg_ok(nodes, #[trigger] segs[k]) implies {
            let out = build_edges_rec(em, nodes, segs);
            out.contains_key(segs[k].0) && out.contains_key(segs[k].1)
        } by {
            if k == 0 {
                assert(em1.contains_key(segs[0].0) && em1.contains_key(segs[0].1));
            } else {
                assert(segs[k] == rest[k - 1]);
            }
        }
    }
}

/// One step keeps the adjacency symmetric.
pub proof fn lemma_seg_step_symmetric(
    em: Map<i64, Map<i64, (u64, bool)>>,
    nodes: Map<i64, Node>,
    s: (i64, i64, u64),
)
    requires
        symmetric(em),
    ensures
        symmetric(seg_step(em, nodes, s)),
{
    if seg_ok(nodes, s) {
        let t = s.0;
        let h = s.1;
        let c = spec_cost(nodes[t], nodes[h], s.2);
        let out = seg_step(em, nodes, s);
        assert forall|a: i64, b: i64| #[trigger]
            has_edge(out, a, b) implies has_edge(out, b, a) && out[b][a] == out[a][b] by {
            if a == t && b == h {
                assert(has_edge(out, h, t) && out[t][h] == (c, false) && out[h][t] == (c, false));
            } else if a == h && b == t {
                assert(has_edge(out, t, h) && out[t][h] == (c, false) && out[h][t] == (c, false));
            } else {
                assert(has_edge(em, a, b) && em[a][b] == out[a][b]);
                assert(has_edge(em, b, a) && em[b][a] == em[a][b]);
                assert(has_edge(out, b, a) && out[b][a] == em[b][a]);
            }
        }
    }
}

/// One step never empties an adjacency row.
pub proof fn lemma_seg_step_rows(
    em: Map<i64, Map<i64, (u64, bool)>>,
    nodes: Map<i64, Node>,
    s: (i64, i64, u64),
)
    requires
        forall|k: i64| #[trigger] em.contains_key(k) ==> exists|b: i64| em[k].contains_key(b),
    ensures
        forall|k: i64| #[trigger]
            seg_step(em, nodes, s).contains_key(k) ==> exists|b: i64|
                seg_step(em, nodes, s)[k].contains_key(b),
{
    let out = seg_step(em, nodes, s);
    assert forall|k: i64| #[trigger] out.contains_key(k) implies exists|b: i64|
        out[k].contains_key(b) by {
        if seg_ok(nodes, s) && k == s.0 {
            assert(out[k].contains_key(s.1));
        } else if seg_ok(nodes, s) && k == s.1 {
            assert(out[k].contains_key(s.0));
        } else {
            let b0 = choose|b: i64| em[k].contains_key(b);
            assert(out[k].contains_key(b0));
        }
    }
}

/// The fold keeps the adjacency symmetric and its rows nonempty.
pub proof fn lemma_build_edges_invariants(
    em: Map<i64, Map<i64, (u64, bool)>>,
    nodes: Map<i64, Node>,
    segs: Seq<(i64, i64, u64)>,
)
    requires
        symmetric(em),
        forall|k: i64| #[trigger] em.contains_key(k) ==> exists|b: i64| em[k].contains_key(b),
    ensures
        symmetric(build_edges_rec(em, nodes, segs)),
        forall|k: i64| #[trigger]
            build_edges_rec(em, nodes, segs).contains_key(k) ==> exists|b: i64|
                build_edges_rec(em, nodes, segs)[k].contains_key(b),
    decreases segs.len(),
{
    if segs.len() > 0 {
        let em1 = seg_step(em, nodes, segs[0]);
        lemma_seg_step_symmetric(em, nodes, segs[0]);
        lemma_seg_step_rows(em, nodes, segs[0]);
        lemma_build_edges_invariants(em1, nodes, segs.subrange(1, segs.len() as int));
    }
}

/// Two point mappings that resolve the same segments the same way fold to the
/// same adjacency.
pub proof fn lemma_build_edges_agree(
    em: Map<i64, Map<i64, (u64, bool)>>,
    nodes1: Map<i64, Node>,
    nodes2: Map<i64, Node>,
    segs: Seq<(i64, i64, u64)>,
)
    requires
        forall|k: int|
            0 <= k < segs.len() ==> (seg_ok(nodes1, #[trigger] segs[k]) <==> seg_ok(
                nodes2,
                segs[k],
            )),
        forall|k: int|
            0 <= k < segs.len() && seg_ok(nodes1, #[trigger] segs[k]) ==> nodes1[segs[k].0]
                == nodes2[segs[k].0] && nodes1[segs[k].1] == nodes2[segs[k].1],
    ensures
        build_edges_rec(em, nodes1, segs) == build_edges_rec(em, nodes2, segs),
    decreases segs.len(),
{
    if segs.len() > 0 {
        assert(seg_step(em, nodes1, segs[0]) == seg_step(em, nodes2, segs[0]));
        lemma_build_edges_agree(
            seg_step(em, nodes1, segs[0]),
            nodes1,
            nodes2,
            segs.subrange(1, segs.len() as int),
        );
    }
}

/// Pushing onto a sequence inserts into its set of elements.
pub proof fn lemma_push_to_set(s: Seq<i64>, a: i64)
    ensures
        s.push(a).to_set() =~= s.to_set().insert(a),
{
    assert forall|x: i64| s.push(a).to_set().contains(x) implies s.to_set().insert(a).contains(
        x,
    ) by {
        let i = choose|i: int| 0 <= i < s.push(a).len() && s.push(a)[i] == x;
        if i < s.len() {
            assert(s[i] == x);
        }
    }
    assert forall|x: i64| s.to_set().insert(a).contains(x) implies s.push(a).to_set().contains(
        x,
    ) by {
        if x == a {
            assert(s.push(a)[s.len() as int] == x);
        } else {
            let i = choose|i: int| 0 <= i < s.len() && s[i] == x;
            assert(s.push(a)[i] == x);
        }
    }
}

/// Pushing a fresh element keeps a sequence duplicate-free.
pub proof fn lemma_push_no_duplicates(s: Seq<i64>, a: i64)
    requires
        s.no_duplicates(),
        !s.to_set().contains(a),
    ensures
        s.push(a).no_duplicates(),
{
    assert forall|i: int, j: int|
        0 <= i < j < s.push(a).len() implies s.push(a)[i] != s.push(a)[j] by {
        if j == s.len() {
            assert(s[i] == s.push(a)[i]);
            assert(s.contains(s[i]));
        }
    }
}

/// Rebuilding from the pruned node map reproduces the adjacency exactly.
pub proof fn lemma_build_edges_restrict(nodes: Map<i64, Node>, ways: Seq<Way>)
    ensures
        spec_build_edges(nodes.restrict(spec_build_edges(nodes, ways).dom()), ways)
            == spec_build_edges(nodes, ways),
{
    let em = spec_build_edges(nodes, ways);
    let pruned = nodes.restrict(em.dom());
    let segs = ways_segs(ways);
    lemma_build_edges_covers(Map::empty(), nodes, segs);
    assert forall|k: int| 0 <= k < segs.len() implies (seg_ok(nodes, #[trigger] segs[k]) <==> seg_ok(
        pruned,
        segs[k],
    )) by {
        if seg_ok(nodes, segs[k]) {
            assert(em.contains_key(segs[k].0) && em.contains_key(segs[k].1));
        }
    }
    lemma_build_edges_agree(Map::empty(), nodes, pruned, segs);
}

/// Insert the directed edge `a -> b` into the executable edge table,
/// recording `a` in `tails` the first time it becomes an adjacency key.
fn insert_directed_edge(
    edges: &mut HashMap<i64, HashMap<i64, (u64, bool)>>,
    tails: &mut Vec<i64>,
    a: i64,
    b: i64,
    c: u64,
)
    ensures
        edge_map_of(*final(edges)) == edge_insert(edge_map_of(*old(edges)), a, b, c),
        old(edges)@.contains_key(a) ==> final(tails)@ == old(tails)@,
        !old(edges)@.contains_key(a) ==> final(tails)@ == old(tails)@.push(a),
{
    match edges.remove(&a) {
        Some(prev) => {
            let mut inner = prev;
            inner.insert(b, (c, false));
            edges.insert(a, inner);
        },
        None => {
            let mut inner: HashMap<i64, (u64, bool)> = HashMap::new();
            inner.insert(b, (c, false));
            edges.insert(a, inner);
            tails.push(a);
        },
    }
    proof {
        assert(edge_map_of(*edges) =~~= edge_insert(edge_map_of(*old(edges)), a, b, c));
    }
}

impl RoadNetwork {
    /// Build the graph: derive a bidirectional weighted edge for every
    /// consecutive reference pair of every way whose endpoints both resolve,
    /// last write winning on duplicates, then prune every point without an
    /// adjacency entry.
    pub fn new(nodes: HashMap<i64, Node>, ways: Vec<Way>) -> (r: Self)
        requires
            valid_input(nodes@, ways@),
        ensures
            r.raw_ways@ == ways@,
            r.edge_map() == spec_build_edges(nodes@, ways@),
            r.nodes@ == nodes@.restrict(spec_build_edges(nodes@, ways@).dom()),
            r.wf(),
            r.built(),
            symmetric(r.edge_map()),
            forall|k: i64| #[trigger]
                r.nodes@.contains_key(k) ==> r.edge_map().contains_key(k) && exists|b: i64|
                    r.edge_map()[k].contains_key(b),
            r.raw_nodes@.to_set() == r.nodes@.dom(),
    {
        let ghost nm = nodes@;
        let ghost ws = ways@;
        let mut edges: HashMap<i64, HashMap<i64, (u64, bool)>> = HashMap::new();
        let mut tails: Vec<i64> = Vec::new();
        proof {
            assert(ws.take(0) =~= Seq::<Way>::empty());
            assert(edge_map_of(edges) =~~= build_edges_rec(
                Map::empty(),
                nm,
                ways_segs(ws.take(0)),
            ));
        }
        let mut wi: usize = 0;
        while wi < ways.len()
            invariant
                valid_input(nm, ws),
                nodes@ == nm,
                ways@ == ws,
                wi <= ws.len(),
                edge_map_of(edges) == build_edges_rec(
                    Map::empty(),
                    nm,
                    ways_segs(ws.take(wi as int)),
                ),
                tails@.to_set() == edge_map_of(edges).dom(),
                tails@.no_duplicates(),
                forall|j: int| 0 <= j < tails@.len() ==> nm.contains_key(#[trigger] tails@[j]),
            decreases ws.len() - wi,
        {
            let way_speed = ways[wi].speed;
            let nrefs = ways[wi].refs.len();
            let ghost w = ws[wi as int];
            let ghost base = ways_segs(ws.take(wi as int));
            let mut i: usize = 0;
            proof {
                assert(way_segs(w).take(0) =~= Seq::<(i64, i64, u64)>::empty());
                assert(base + way_segs(w).take(0) =~= base);
            }
            while i + 1 < nrefs
                invariant
                    valid_input(nm, ws),
                    nodes@ == nm,
                    ways@ == ws,
                    wi < ws.len(),
                    w == ws[wi as int],
                    way_speed == w.speed,
                    nrefs == w.refs@.len(),
                    base == ways_segs(ws.take(wi as int)),
                    i as int <= way_segs(w).len(),
                    edge_map_of(edges) == build_edges_rec(
                        Map::empty(),
                        nm,
                        base + way_segs(w).take(i as int),
                    ),
                    tails@.to_set() == edge_map_of(edges).dom(),
                    tails@.no_duplicates(),
                    forall|j: int| 0 <= j < tails@.len() ==> nm.contains_key(#[trigger] tails@[j]),
                decreases nrefs - i,
            {
                let tail_id = ways[wi].refs[i];
                let head_id = ways[wi].refs[i + 1];
                let ghost s = (tail_id, head_id, way_speed);
                let ghost before = base + way_segs(w).take(i as int);
                proof {
                    assert(way_segs(w)[i as int] == s);
                    assert(before.push(s) =~= base + way_segs(w).take(i as int + 1));
                    lemma_build_edges_snoc(Map::empty(), nm, before, s);
                }
                match (nodes.get(&tail_id), nodes.get(&head_id)) {
                    (Some(tail), Some(head)) => {
                        proof {
                            assert(nm.contains_key(tail_id) && nm[tail_id] == *tail);
                            assert(nm.contains_key(head_id) && nm[head_id] == *head);
                            assert(seg_ok(nm, s));
                        }
                        let cost = segment_cost(tail, head, way_speed);
                        let ghost em0 = edge_map_of(edges);
                        let ghost tails0 = tails@;
                        insert_directed_edge(&mut edges, &mut tails, tail_id, head_id, cost);
                        proof {
                            if !em0.contains_key(tail_id) {
                                lemma_push_to_set(tails0, tail_id);
                                lemma_push_no_duplicates(tails0, tail_id);
                            }
                        }
                        let ghost em1 = edge_map_of(edges);
                        let ghost tails1 = tails@;
                        insert_directed_edge(&mut edges, &mut tails, head_id, tail_id, cost);
                        proof {
                            if !em1.contains_key(head_id) {
                                lemma_push_to_set(tails1, head_id);
                                lemma_push_no_duplicates(tails1, head_id);
                            }
                            assert(edge_map_of(edges) == seg_step(em0, nm, s));
                            assert(tails@.to_set() =~= edge_map_of(edges).dom());
                        }
                    },
                    _ => {
                        proof {
                            assert(!seg_ok(nm, s));
                        }
                    },
                }
                i = i + 1;
            }
            proof {
                assert(way_segs(w).take(i as int) =~= way_segs(w));
                lemma_ways_segs_snoc(ws, wi as int);
                assert(base + way_segs(w) =~= ways_segs(ws.take(wi as int + 1)));
            }
            wi = wi + 1;
        }
        proof {
            assert(ws.take(ws.len() as int) =~= ws);
        }
        let ghost em = spec_build_edges(nm, ws);
        let mut out_nodes: HashMap<i64, Node> = HashMap::new();
        let mut raw: Vec<i64> = Vec::new();
        let mut k: usize = 0;
        proof {
            assert(tails@.take(0) =~= Seq::<i64>::empty());
            assert(out_nodes@ =~= nm.restrict(tails@.take(0).to_set()));
        }
        while k < tails.len()
            invariant
                k <= tails@.len(),
                nodes@ == nm,
                edge_map_of(edges) == em,
                tails@.to_set() == em.dom(),
                tails@.no_duplicates(),
                forall|j: int| 0 <= j < tails@.len() ==> nm.contains_key(#[trigger] tails@[j]),
                out_nodes@ == nm.restrict(tails@.take(k as int).to_set()),
                raw@ == tails@.take(k as int),
            decreases tails@.len() - k,
        {
            let id = tails[k];
            let found = nodes.get(&id);
            let nd = *found.unwrap();
            out_nodes.insert(id, nd);
            raw.push(id);
            proof {
                assert(tails@.take(k as int + 1) =~= tails@.take(k as int).push(id));
                lemma_push_to_set(tails@.take(k as int), id);
                assert(out_nodes@ =~= nm.restrict(tails@.take(k as int + 1).to_set()));
            }
            k = k + 1;
        }
        let r = RoadNetwork { nodes: out_nodes, edges, raw_ways: ways, raw_nodes: raw };
        proof {
            assert(tails@.take(tails@.len() as int) =~= tails@);
            lemma_build_edges_invariants(Map::empty(), nm, ways_segs(ws));
            lemma_build_edges_dom_in_nodes(Map::empty(), nm, ways_segs(ws));
            lemma_build_edges_restrict(nm, ws);
            assert(r.nodes@.dom() =~= em.dom());
            assert(r.raw_nodes@.to_set() =~= r.nodes@.dom());
            assert(r.edge_map() == spec_build_edges(r.nodes@, r.raw_ways@));
        }
        r
    }
}

} // verus!
