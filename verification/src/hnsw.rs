//! The hierarchical navigable small world (HNSW) proximity-graph index:
//! a multi-layer graph over fixed-point vectors supporting incremental
//! insertion and approximate K-nearest-neighbour search.
//!
//! Nodes live in an arena (`nodes`); adjacency lists hold node ids, not
//! handles. `wf` captures the structural invariants: layer capacity
//! bounds, validity of every adjacency entry, and the entry-point rule.

use vstd::prelude::*;
use vstd::seq_lib::*;
use vstd::set_lib::lemma_len_subset;
use crate::distance::{coord_ok, coords_ok, spec_dist_sq, euclidean_distance_sq};

verus! {

/// One graph node: its client id, its stored vector, and one adjacency
/// list per layer it participates in (layer 0 first).
pub struct Node {
    pub id: u32,
    pub vector: Vec<i64>,
    pub layers: Vec<Vec<u32>>,
}

/// The index. `max_layers` is the top layer of the entry point;
/// `m` is the target out-degree, `m_max0 == 2 * m` the layer-0 cap.
pub struct Hnsw {
    pub nodes: Vec<Node>,
    pub entry_point: Option<u32>,
    pub max_layers: usize,
    pub ef_construction: usize,
    pub m: usize,
    pub m_max0: usize,
}

pub open spec fn int_min(a: int, b: int) -> int {
    if a <= b {
        a
    } else {
        b
    }
}

/// Results and candidate pools are (id, squared distance) pairs in
/// ascending distance order.
pub open spec fn sorted_by_dist(s: Seq<(u32, u128)>) -> bool {
    forall|i: int, j: int| 0 <= i < j < s.len() ==> (#[trigger] s[i]).1 <= (#[trigger] s[j]).1
}

pub open spec fn pair_ids_distinct(s: Seq<(u32, u128)>) -> bool {
    forall|i: int, j: int| 0 <= i < j < s.len() ==> (#[trigger] s[i]).0 != (#[trigger] s[j]).0
}

impl Hnsw {
    pub open spec fn contains_id(self, id: u32) -> bool {
        exists|j: int| 0 <= j < self.nodes@.len() && (#[trigger] self.nodes@[j]).id == id
    }

    pub open spec fn idx_of(self, id: u32) -> int {
        choose|j: int| 0 <= j < self.nodes@.len() && (#[trigger] self.nodes@[j]).id == id
    }

    pub open spec fn node_of(self, id: u32) -> Node {
        self.nodes@[self.idx_of(id)]
    }

    pub open spec fn vector_of(self, id: u32) -> Seq<i64> {
        self.node_of(id).vector@
    }

    /// The top layer a node participates in.
    pub open spec fn top_layer_of(self, id: u32) -> int {
        self.node_of(id).layers@.len() - 1
    }

    pub open spec fn adjacency(self, id: u32, l: int) -> Seq<u32> {
        self.node_of(id).layers@[l]@
    }

    /// Capacity of an adjacency list: `m_max0` on layer 0, `m` above.
    pub open spec fn layer_cap(self, l: int) -> int {
        if l == 0 {
            self.m_max0 as int
        } else {
            self.m as int
        }
    }

    /// The shared vector length of the index (0 while empty).
    pub open spec fn spec_dim(self) -> int {
        if self.nodes@.len() == 0 {
            0
        } else {
            self.nodes@[0].vector@.len() as int
        }
    }

    pub open spec fn ids_distinct(self) -> bool {
        forall|j: int, k: int|
            0 <= j < k < self.nodes@.len() ==> (#[trigger] self.nodes@[j]).id != (
            #[trigger] self.nodes@[k]).id
    }

    /// Every stored vector has the shared length and bounded coordinates.
    pub open spec fn vectors_ok(self) -> bool {
        forall|j: int|
            0 <= j < self.nodes@.len() ==> (#[trigger] self.nodes@[j]).vector@.len()
                == self.spec_dim() && coords_ok(self.nodes@[j].vector@)
    }

    /// A valid directed edge at layer `l`: no self-loop, the target
    /// exists, and the target participates in layer `l`.
    pub open spec fn edge_ok(self, from: u32, to: u32, l: int) -> bool {
        &&& to != from
        &&& self.contains_id(to)
        &&& l < self.node_of(to).layers@.len()
    }

    pub open spec fn node_wf(self, j: int) -> bool {
        let n = self.nodes@[j];
        &&& 1 <= n.layers@.len()
        &&& n.layers@.len() <= self.max_layers + 1
        &&& forall|l: int|
            0 <= l < n.layers@.len() ==> (#[trigger] n.layers@[l])@.len() <= self.layer_cap(l)
        &&& forall|l: int, k: int|
            0 <= l < n.layers@.len() && 0 <= k < n.layers@[l]@.len() ==> self.edge_ok(
                n.id,
                #[trigger] n.layers@[l]@[k],
                l,
            )
    }

    pub open spec fn params_ok(self) -> bool {
        &&& 2 <= self.m <= 0x1000_0000
        &&& self.m_max0 == self.m * 2
        &&& 1 <= self.ef_construction <= 0x1000_0000
        &&& self.max_layers <= 0x1000_0000
    }

    /// The structural invariant of the whole index.
    pub open spec fn wf(self) -> bool {
        &&& self.params_ok()
        &&& self.ids_distinct()
        &&& self.vectors_ok()
        &&& forall|j: int| 0 <= j < self.nodes@.len() ==> self.node_wf(j)
        &&& match self.entry_point {
            None => self.nodes@.len() == 0 && self.max_layers == 0,
            Some(ep) => {
                &&& self.nodes@.len() > 0
                &&& self.contains_id(ep)
                &&& self.node_of(ep).layers@.len() == self.max_layers + 1
            },
        }
    }

    /// `id` appears in some node's layer-`l` adjacency list.
    pub open spec fn in_some_adjacency(self, id: u32, l: int) -> bool {
        exists|j: int, k: int|
            0 <= j < self.nodes@.len() && 0 <= l < self.nodes@[j].layers@.len() && 0 <= k
                < self.nodes@[j].layers@[l]@.len() && #[trigger] self.nodes@[j].layers@[l]@[k] == id
    }

    /// The top layer of the insertion band for a node drawn at
    /// `level`: the layers `0 ..= insertion_band(level)` receive
    /// candidate links.
    pub open spec fn insertion_band(self, level: usize) -> int {
        if level as int <= self.max_layers as int {
            level as int
        } else {
            self.max_layers as int
        }
    }

    /// A well-formed search result entry for query `q` at layer `l`.
    pub open spec fn result_ok(self, q: Seq<i64>, p: (u32, u128), l: int) -> bool {
        &&& self.contains_id(p.0)
        &&& l < self.node_of(p.0).layers@.len()
        &&& p.1 == spec_dist_sq(q, self.vector_of(p.0))
    }

    /// Build an empty index with target degree `m` and construction
    /// beam width `ef_construction`.
    pub fn new(m: usize, ef_construction: usize) -> (r: Hnsw)
        requires
            2 <= m <= 0x1000_0000,
            1 <= ef_construction <= 0x1000_0000,
        ensures
            r.wf(),
            r.nodes@.len() == 0,
            r.entry_point is None,
            r.m == m,
            r.m_max0 == 2 * m,
            r.ef_construction == ef_construction,
    {
        Hnsw {
            nodes: Vec::new(),
            entry_point: None,
            max_layers: 0,
            ef_construction,
            m,
            m_max0: m * 2,
        }
    }

    /// Position of the node with the given id in the arena.
    fn find_idx(&self, id: u32) -> (r: usize)
        requires
            self.ids_distinct(),
            self.contains_id(id),
        ensures
            r < self.nodes@.len(),
            self.nodes@[r as int].id == id,
            r as int == self.idx_of(id),
    {
        let n = self.nodes.len();
        let mut j: usize = 0;
        while j < n
            invariant
                n == self.nodes@.len(),
                j <= n,
                self.ids_distinct(),
                self.contains_id(id),
                forall|t: int| 0 <= t < j ==> (#[trigger] self.nodes@[t]).id != id,
            decreases n - j,
        {
            if self.nodes[j].id == id {
                proof {
                    let w = self.idx_of(id);
                    assert(0 <= w < self.nodes@.len() && self.nodes@[w].id == id);
                }
                return j;
            }
            j = j + 1;
        }
        proof {
            let w = self.idx_of(id);
            assert(0 <= w < self.nodes@.len() && self.nodes@[w].id == id);
            assert(false);
        }
        0
    }

    /// Squared distance from query `q` to the stored vector of `id`.
    fn dist_to(&self, q: &Vec<i64>, id: u32) -> (r: u128)
        requires
            self.ids_distinct(),
            self.vectors_ok(),
            self.contains_id(id),
            coords_ok(q@),
            q@.len() == self.spec_dim(),
        ensures
            r == spec_dist_sq(q@, self.vector_of(id)),
    {
        let j = self.find_idx(id);
        euclidean_distance_sq(q, &self.nodes[j].vector)
    }

    /// An id a layer search may hand back: present, participating in the
    /// layer, and either the entry itself or referenced by some
    /// layer-`l` adjacency list.
    pub open spec fn sl_ok_id(self, entry: u32, l: int, x: u32) -> bool {
        &&& self.contains_id(x)
        &&& l < self.node_of(x).layers@.len()
        &&& (x == entry || self.in_some_adjacency(x, l))
    }

    pub open spec fn sl_ok_ids(self, entry: u32, l: int, s: Seq<u32>) -> bool {
        forall|i: int| 0 <= i < s.len() ==> self.sl_ok_id(entry, l, #[trigger] s[i])
    }

    pub open spec fn sl_ok_pair(self, q: Seq<i64>, entry: u32, l: int, p: (u32, u128)) -> bool {
        &&& self.result_ok(q, p, l)
        &&& (p.0 == entry || self.in_some_adjacency(p.0, l))
    }

    pub open spec fn sl_ok_pairs(self, q: Seq<i64>, entry: u32, l: int, s: Seq<(u32, u128)>) -> bool {
        forall|i: int| 0 <= i < s.len() ==> self.sl_ok_pair(q, entry, l, #[trigger] s[i])
    }

    /// Greedy walk on layer `l`: move to a strictly closer neighbour
    /// while one exists.
    #[verifier::loop_isolation(false)]
    fn greedy_closest(&self, q: &Vec<i64>, start: u32, l: usize) -> (r: u32)
        requires
            self.wf(),
            self.contains_id(start),
            (l as int) < self.node_of(start).layers@.len(),
            coords_ok(q@),
            q@.len() == self.spec_dim(),
        ensures
            self.sl_ok_id(start, l as int, r),
    {
        let mut curr = start;
        let mut curr_dist = self.dist_to(q, curr);
        loop
            invariant
                self.sl_ok_id(start, l as int, curr),
                curr_dist == spec_dist_sq(q@, self.vector_of(curr)),
            decreases curr_dist,
        {
            let cj = self.find_idx(curr);
            proof {
                assert(self.node_wf(cj as int));
            }
            let nb_total = self.nodes[cj].layers[l].len();
            let mut best_id = curr;
            let mut best_d = curr_dist;
            let mut t: usize = 0;
            while t < nb_total
                invariant
                    t <= nb_total,
                    self.sl_ok_id(start, l as int, best_id),
                    best_d == spec_dist_sq(q@, self.vector_of(best_id)),
                    best_d <= curr_dist,
                decreases nb_total - t,
            {
                let nb = self.nodes[cj].layers[l][t];
                proof {
                    assert(self.edge_ok(self.nodes@[cj as int].id, nb, l as int));
                    assert(self.in_some_adjacency(nb, l as int));
                }
                let d = self.dist_to(q, nb);
                if d < best_d {
                    best_id = nb;
                    best_d = d;
                }
                t = t + 1;
            }
            if best_d < curr_dist {
                curr = best_id;
                curr_dist = best_d;
            } else {
                return curr;
            }
        }
    }

    /// Beam search on one layer: expand from `entry`, keeping the best
    /// `ef` ids found, returned in ascending distance order.
    #[verifier::loop_isolation(false)]
    #[verifier::rlimit(100)]
    fn search_layer(&self, q: &Vec<i64>, entry: u32, ef: usize, layer: usize) -> (r: Vec<(u32, u128)>)
        requires
            self.wf(),
            self.contains_id(entry),
            (layer as int) < self.node_of(entry).layers@.len(),
            1 <= ef,
            coords_ok(q@),
            q@.len() == self.spec_dim(),
        ensures
            1 <= r@.len() <= ef,
            sorted_by_dist(r@),
            pair_ids_distinct(r@),
            self.sl_ok_pairs(q@, entry, layer as int, r@),
    {
        let entry_dist = self.dist_to(q, entry);
        let mut visited: Vec<u32> = Vec::new();
        let mut frontier: Vec<(u32, u128)> = Vec::new();
        let mut best: Vec<(u32, u128)> = Vec::new();
        visited.push(entry);
        frontier.push((entry, entry_dist));
        best.push((entry, entry_dist));
        let ghost n_total = self.nodes@.len() as int;
        proof {
            assert(n_total >= 1);
            assert(visited@[0] == entry);
            assert(visited@.contains(entry));
        }
        loop
            invariant
                visited@.no_duplicates(),
                self.sl_ok_ids(entry, layer as int, visited@),
                visited@.len() <= n_total,
                pair_ids_distinct(frontier@),
                self.sl_ok_pairs(q@, entry, layer as int, frontier@),
                forall|i: int|
                    0 <= i < frontier@.len() ==> visited@.contains((#[trigger] frontier@[i]).0),
                1 <= best@.len() <= ef,
                sorted_by_dist(best@),
                pair_ids_distinct(best@),
                self.sl_ok_pairs(q@, entry, layer as int, best@),
                forall|i: int|
                    0 <= i < best@.len() ==> visited@.contains((#[trigger] best@[i]).0),
            decreases frontier@.len() + n_total - visited@.len(),
        {
            if frontier.len() == 0 {
                break;
            }
            let pi = min_idx(&frontier);
            let ghost f0 = frontier@;
            let c = frontier.remove(pi);
            proof {
                assert(forall|i: int|
                    0 <= i < frontier@.len() ==> frontier@[i] == if i < pi as int {
                        f0[i]
                    } else {
                        f0[i + 1]
                    });
            }
            let worst = best[best.len() - 1].1;
            if c.1 > worst && best.len() >= ef {
                break;
            }
            let cj = self.find_idx(c.0);
            proof {
                assert(self.node_wf(cj as int));
            }
            let ghost mu1 = frontier@.len() + n_total - visited@.len();
            let nb_total = self.nodes[cj].layers[layer].len();
            let mut t: usize = 0;
            while t < nb_total
                invariant
                    t <= nb_total,
                    visited@.no_duplicates(),
                    self.sl_ok_ids(entry, layer as int, visited@),
                    visited@.len() <= n_total,
                    pair_ids_distinct(frontier@),
                    self.sl_ok_pairs(q@, entry, layer as int, frontier@),
                    forall|i: int|
                        0 <= i < frontier@.len() ==> visited@.contains((#[trigger] frontier@[i]).0),
                    1 <= best@.len() <= ef,
                    sorted_by_dist(best@),
                    pair_ids_distinct(best@),
                    self.sl_ok_pairs(q@, entry, layer as int, best@),
                    forall|i: int|
                        0 <= i < best@.len() ==> visited@.contains((#[trigger] best@[i]).0),
                    frontier@.len() + n_total - visited@.len() <= mu1,
                decreases nb_total - t,
            {
                let nb = self.nodes[cj].layers[layer][t];
                proof {
                    assert(self.edge_ok(self.nodes@[cj as int].id, nb, layer as int));
                    assert(self.in_some_adjacency(nb, layer as int));
                }
                if !contains_u32(&visited, nb) {
                    proof {
                        lemma_id_capacity(*self, visited@, nb);
                    }
                    let d = self.dist_to(q, nb);
                    let worst_now = best[best.len() - 1].1;
                    let fits = best.len() < ef || d < worst_now;
                    let ghost v0 = visited@;
                    visited.push(nb);
                    proof {
                        assert(forall|x: u32| v0.contains(x) ==> visited@.contains(x)) by {
                            assert forall|x: u32| v0.contains(x) implies visited@.contains(x) by {
                                let i = choose|i: int| 0 <= i < v0.len() && v0[i] == x;
                                assert(visited@[i] == x);
                            }
                        }
                        assert(visited@.contains(nb)) by {
                            assert(visited@[visited@.len() - 1] == nb);
                        }
                    }
                    if fits {
                        let ghost b0 = best@;
                        frontier.push((nb, d));
                        insert_sorted(&mut best, (nb, d));
                        proof {
                            let p = choose|p: int|
                                0 <= p <= b0.len() && best@ == b0.insert(p, (nb, d));
                            lemma_insert_elems(b0, p, (nb, d));
                            assert(pair_ids_distinct(best@)) by {
                                assert forall|i: int, j: int|
                                    0 <= i < j < best@.len() implies (#[trigger] best@[i]).0 != (
                                #[trigger] best@[j]).0 by {
                                    if i < p && j < p {
                                    } else if i < p && j == p {
                                        assert(best@[i] == b0[i]);
                                        assert(b0.contains(b0[i]));
                                    } else if i == p {
                                        assert(best@[j] == b0[j - 1]);
                                        assert(b0.contains(b0[j - 1]));
                                    } else if j > p && i > p {
                                        assert(best@[i] == b0[i - 1]);
                                        assert(best@[j] == b0[j - 1]);
                                    } else if j > p && i < p {
                                        assert(best@[i] == b0[i]);
                                        assert(best@[j] == b0[j - 1]);
                                    }
                                }
                            }
                        }
                        if best.len() > ef {
                            best.pop();
                        }
                    }
                }
                t = t + 1;
            }
        }
        best
    }
}

/// Element-wise copy of a coordinate vector.
pub(crate) fn clone_i64_vec(v: &Vec<i64>) -> (r: Vec<i64>)
    ensures
        r@ == v@,
{
    let mut r: Vec<i64> = Vec::new();
    let mut i: usize = 0;
    while i < v.len()
        invariant
            i <= v@.len(),
            r@ == v@.subrange(0, i as int),
        decreases v@.len() - i,
    {
        r.push(v[i]);
        proof {
            assert(r@ =~= v@.subrange(0, i + 1 as int));
        }
        i = i + 1;
    }
    proof {
        assert(r@ =~= v@);
    }
    r
}

/// Element-wise copy of an id list.
fn clone_u32_vec(v: &Vec<u32>) -> (r: Vec<u32>)
    ensures
        r@ == v@,
{
    let mut r: Vec<u32> = Vec::new();
    let mut i: usize = 0;
    while i < v.len()
        invariant
            i <= v@.len(),
            r@ == v@.subrange(0, i as int),
        decreases v@.len() - i,
    {
        r.push(v[i]);
        proof {
            assert(r@ =~= v@.subrange(0, i + 1 as int));
        }
        i = i + 1;
    }
    proof {
        assert(r@ =~= v@);
    }
    r
}

/// Index of a minimum-distance pair.
fn min_idx(v: &Vec<(u32, u128)>) -> (r: usize)
    requires
        v@.len() >= 1,
    ensures
        r < v@.len(),
        forall|i: int| 0 <= i < v@.len() ==> v@[r as int].1 <= (#[trigger] v@[i]).1,
{
    let mut r: usize = 0;
    let mut i: usize = 1;
    while i < v.len()
        invariant
            v@.len() >= 1,
            r < i <= v@.len(),
            forall|t: int| 0 <= t < i ==> v@[r as int].1 <= (#[trigger] v@[t]).1,
        decreases v@.len() - i,
    {
        if v[i].1 < v[r].1 {
            r = i;
        }
        i = i + 1;
    }
    r
}

/// Insert a pair into a distance-sorted vector, after any equal
/// distances already present.
pub(crate) fn insert_sorted(v: &mut Vec<(u32, u128)>, item: (u32, u128))
    requires
        sorted_by_dist(old(v)@),
    ensures
        sorted_by_dist(final(v)@),
        final(v)@.len() == old(v)@.len() + 1,
        exists|p: int|
            {
                &&& 0 <= p <= old(v)@.len()
                &&& final(v)@ == old(v)@.insert(p, item)
                &&& (forall|t: int| 0 <= t < p ==> (#[trigger] old(v)@[t]).1 <= item.1)
                &&& (forall|t: int| p <= t < old(v)@.len() ==> item.1 < (#[trigger] old(v)@[t]).1)
            },
{
    let mut p: usize = 0;
    while p < v.len() && v[p].1 <= item.1
        invariant
            sorted_by_dist(v@),
            p <= v@.len(),
            forall|t: int| 0 <= t < p ==> (#[trigger] v@[t]).1 <= item.1,
        decreases v@.len() - p,
    {
        p = p + 1;
    }
    proof {
        assert(forall|t: int| p <= t < v@.len() ==> item.1 < (#[trigger] v@[t]).1);
    }
    v.insert(p, item);
}

/// Linear membership scan.
fn contains_u32(v: &Vec<u32>, x: u32) -> (r: bool)
    ensures
        r == v@.contains(x),
{
    let mut i: usize = 0;
    while i < v.len()
        invariant
            i <= v@.len(),
            forall|t: int| 0 <= t < i ==> v@[t] != x,
        decreases v@.len() - i,
    {
        if v[i] == x {
            return true;
        }
        i = i + 1;
    }
    false
}

/// A duplicate-free list of ids of this index, missing at least one id,
/// is strictly shorter than the arena.
proof fn lemma_id_capacity(h: Hnsw, visited: Seq<u32>, extra: u32)
    requires
        h.ids_distinct(),
        visited.no_duplicates(),
        forall|i: int| 0 <= i < visited.len() ==> h.contains_id(#[trigger] visited[i]),
        h.contains_id(extra),
        !visited.contains(extra),
    ensures
        visited.len() < h.nodes@.len(),
{
    broadcast use vstd::seq_lib::seq_to_set_is_finite;
    broadcast use vstd::set::group_set_axioms;

    let ids = Seq::new(h.nodes@.len(), |j: int| h.nodes@[j].id);
    let vs = visited.push(extra);
    assert(vs.no_duplicates()) by {
        assert forall|i: int, j: int| 0 <= i < j < vs.len() implies vs[i] != vs[j] by {
            if j == vs.len() - 1 {
                assert(vs[j] == extra);
                assert(vs[i] == visited[i]);
                assert(!visited.contains(extra));
            }
        }
    }
    vs.unique_seq_to_set();
    ids.lemma_cardinality_of_set();
    assert(vs.to_set().subset_of(ids.to_set())) by {
        assert forall|x: u32| vs.to_set().contains(x) implies ids.to_set().contains(x) by {
            assert(vs.contains(x));
            assert(h.contains_id(x));
            let j = choose|j: int|
                0 <= j < h.nodes@.len() && (#[trigger] h.nodes@[j]).id == x;
            assert(ids[j] == x);
            assert(ids.contains(x));
        }
    }
    lemma_len_subset(vs.to_set(), ids.to_set());
}

/// `b` differs from `a` only in the contents of adjacency lists: same
/// node count, same ids, same vectors, same layer counts.
pub open spec fn same_skeleton(a: Hnsw, b: Hnsw) -> bool {
    &&& b.nodes@.len() == a.nodes@.len()
    &&& forall|t: int|
        0 <= t < a.nodes@.len() ==> (#[trigger] b.nodes@[t]).id == a.nodes@[t].id
            && b.nodes@[t].vector@ == a.nodes@[t].vector@ && b.nodes@[t].layers@.len()
            == a.nodes@[t].layers@.len()
}

/// How a linking target's layer list may change when a new node `id`
/// arrives: within capacity the list gains `id` at its end; over
/// capacity it is rebuilt with exactly `cap` entries drawn from the old
/// list plus `id`, keeping the entries closest to the owner's own
/// vector (distances read from `h`, which holds every vector involved).
pub open spec fn link_step(
    h: Hnsw,
    own: Seq<i64>,
    oldl: Seq<u32>,
    newl: Seq<u32>,
    id: u32,
    cap: int,
) -> bool {
    ||| (oldl.len() + 1 <= cap && newl == oldl.push(id))
    ||| {
        &&& oldl.len() + 1 > cap
        &&& newl.len() == cap
        &&& forall|k: int| 0 <= k < newl.len() ==> oldl.contains(#[trigger] newl[k]) || newl[k] == id
        &&& forall|k: int, x: u32|
            #![trigger newl[k], oldl.contains(x)]
            0 <= k < newl.len() && (oldl.contains(x) || x == id) && !newl.contains(x)
                ==> spec_dist_sq(own, h.vector_of(newl[k])) <= spec_dist_sq(own, h.vector_of(x))
    }
}

/// A link step keeps its meaning across states with the same skeleton:
/// the distances it speaks of depend only on the stored vectors.
proof fn lemma_link_step_transfer(
    a: Hnsw,
    b: Hnsw,
    own: Seq<i64>,
    oldl: Seq<u32>,
    newl: Seq<u32>,
    id: u32,
    cap: int,
)
    requires
        a.ids_distinct(),
        same_skeleton(a, b),
        link_step(a, own, oldl, newl, id, cap),
        forall|k: int| 0 <= k < oldl.len() ==> a.contains_id(#[trigger] oldl[k]),
        a.contains_id(id),
    ensures
        link_step(b, own, oldl, newl, id, cap),
{
    lemma_same_skeleton(a, b);
    if !(oldl.len() + 1 <= cap && newl == oldl.push(id)) {
        assert forall|k: int, x: u32|
            #![trigger newl[k], oldl.contains(x)]
            0 <= k < newl.len() && (oldl.contains(x) || x == id) && !newl.contains(x) implies
            spec_dist_sq(own, b.vector_of(newl[k])) <= spec_dist_sq(own, b.vector_of(x)) by {
            assert(oldl.contains(newl[k]) || newl[k] == id);
            if oldl.contains(newl[k]) {
                let w = choose|w: int| 0 <= w < oldl.len() && oldl[w] == newl[k];
                assert(a.contains_id(oldl[w]));
            }
            assert(a.contains_id(newl[k]));
            if oldl.contains(x) {
                let w = choose|w: int| 0 <= w < oldl.len() && oldl[w] == x;
                assert(a.contains_id(oldl[w]));
            }
            assert(a.contains_id(x));
            assert(b.vector_of(newl[k]) == a.vector_of(newl[k]));
            assert(b.vector_of(x) == a.vector_of(x));
        }
    }
}

/// What `prune_list` returns for an over-full list is a pruning link
/// step: `cap` entries drawn from the old list plus the new id, each
/// at least as close to the owner as anything dropped.
proof fn lemma_prune_is_link_step(
    h: Hnsw,
    own: Seq<i64>,
    prelist: Seq<u32>,
    lst: Seq<u32>,
    pruned: Seq<u32>,
    id: u32,
    cap: int,
)
    requires
        lst == prelist.push(id),
        lst.len() > cap >= 1,
        pruned.len() == cap,
        forall|i: int| 0 <= i < pruned.len() ==> lst.contains(#[trigger] pruned[i]),
        forall|i: int, x: u32|
            #![trigger pruned[i], lst.contains(x)]
            0 <= i < pruned.len() && lst.contains(x) && !pruned.contains(x) ==> spec_dist_sq(
                own,
                h.vector_of(pruned[i]),
            ) <= spec_dist_sq(own, h.vector_of(x)),
    ensures
        link_step(h, own, prelist, pruned, id, cap),
{
    assert(prelist.len() + 1 > cap);
    assert forall|k: int| 0 <= k < pruned.len() implies prelist.contains(#[trigger] pruned[k])
        || pruned[k] == id by {
        assert(lst.contains(pruned[k]));
        let w = choose|w: int| 0 <= w < lst.len() && lst[w] == pruned[k];
        if w < prelist.len() {
            assert(prelist[w] == pruned[k]);
        }
    }
    assert forall|k: int, x: u32|
        #![trigger pruned[k], prelist.contains(x)]
        0 <= k < pruned.len() && (prelist.contains(x) || x == id) && !pruned.contains(
            x,
        ) implies spec_dist_sq(own, h.vector_of(pruned[k])) <= spec_dist_sq(
        own,
        h.vector_of(x),
    ) by {
        assert(lst.contains(x)) by {
            if prelist.contains(x) {
                let w = choose|w: int| 0 <= w < prelist.len() && prelist[w] == x;
                assert(lst[w] == x);
            } else {
                assert(lst[prelist.len() as int] == id);
            }
        }
    }
}

/// Two index states with the same skeleton agree on membership,
/// positions and vector lookups.
pub(crate) proof fn lemma_same_skeleton(a: Hnsw, b: Hnsw)
    requires
        a.ids_distinct(),
        same_skeleton(a, b),
    ensures
        b.ids_distinct(),
        forall|x: u32| a.contains_id(x) <==> b.contains_id(x),
        forall|x: u32|
            #[trigger] a.contains_id(x) ==> b.idx_of(x) == a.idx_of(x) && b.node_of(
                x,
            ).layers@.len() == a.node_of(x).layers@.len() && b.vector_of(x) == a.vector_of(x),
        b.spec_dim() == a.spec_dim(),
{
    assert forall|x: u32| a.contains_id(x) implies b.contains_id(x) by {
        let w = choose|w: int| 0 <= w < a.nodes@.len() && (#[trigger] a.nodes@[w]).id == x;
        assert(b.nodes@[w].id == x);
    }
    assert forall|x: u32| b.contains_id(x) implies a.contains_id(x) by {
        let w = choose|w: int| 0 <= w < b.nodes@.len() && (#[trigger] b.nodes@[w]).id == x;
        assert(a.nodes@[w].id == x);
    }
    assert forall|x: u32| #[trigger] a.contains_id(x) implies b.idx_of(x) == a.idx_of(x)
        && b.node_of(x).layers@.len() == a.node_of(x).layers@.len() && b.vector_of(x)
        == a.vector_of(x) by {
        let w1 = a.idx_of(x);
        assert(0 <= w1 < a.nodes@.len() && a.nodes@[w1].id == x);
        assert(b.contains_id(x));
        let w2 = b.idx_of(x);
        assert(0 <= w2 < b.nodes@.len() && b.nodes@[w2].id == x);
        assert(a.nodes@[w2].id == x);
        if w1 != w2 {
            assert(a.nodes@[w1].id != a.nodes@[w2].id);
        }
    }
}

impl Hnsw {
    /// Replace node `j`'s layer-`l` adjacency list, preserving the
    /// structural invariant.
    fn set_adjacency(&mut self, j: usize, l: usize, newlist: Vec<u32>)
        requires
            old(self).wf(),
            j < old(self).nodes@.len(),
            (l as int) < old(self).nodes@[j as int].layers@.len(),
            newlist@.len() <= old(self).layer_cap(l as int),
            forall|k: int|
                0 <= k < newlist@.len() ==> old(self).edge_ok(
                    old(self).nodes@[j as int].id,
                    #[trigger] newlist@[k],
                    l as int,
                ),
        ensures
            final(self).wf(),
            final(self).nodes@.len() == old(self).nodes@.len(),
            forall|t: int|
                0 <= t < old(self).nodes@.len() && t != j ==> final(self).nodes@[t] == old(self).nodes@[t],
            final(self).nodes@[j as int].id == old(self).nodes@[j as int].id,
            final(self).nodes@[j as int].vector == old(self).nodes@[j as int].vector,
            final(self).nodes@[j as int].layers@.len() == old(self).nodes@[j as int].layers@.len(),
            forall|l2: int|
                0 <= l2 < old(self).nodes@[j as int].layers@.len() && l2 != l ==> final(self).nodes@[j as int].layers@[l2] == old(self).nodes@[j as int].layers@[l2],
            final(self).nodes@[j as int].layers@[l as int]@ == newlist@,
            final(self).entry_point == old(self).entry_point,
            final(self).max_layers == old(self).max_layers,
            final(self).m == old(self).m,
            final(self).m_max0 == old(self).m_max0,
            final(self).ef_construction == old(self).ef_construction,
    {
        let ghost pre = *self;
        let node_ref = &mut self.nodes[j];
        let slot = &mut node_ref.layers[l];
        *slot = newlist;
        proof {
            let post = *self;
            assert(post.nodes@.len() == pre.nodes@.len());
            assert(forall|t: int|
                0 <= t < pre.nodes@.len() && t != j ==> post.nodes@[t] == pre.nodes@[t]);
            lemma_same_skeleton(pre, post);
            assert forall|t: int| 0 <= t < post.nodes@.len() implies post.node_wf(t) by {
                assert(pre.node_wf(t));
                let n_pre = pre.nodes@[t];
                let n_post = post.nodes@[t];
                assert forall|l2: int|
                    0 <= l2 < n_post.layers@.len() implies (#[trigger] n_post.layers@[l2])@.len()
                    <= post.layer_cap(l2) by {
                    if !(t == j as int && l2 == l as int) {
                        assert(n_post.layers@[l2] == n_pre.layers@[l2]);
                    }
                }
                assert forall|l2: int, k: int|
                    0 <= l2 < n_post.layers@.len() && 0 <= k < n_post.layers@[l2]@.len() implies
                    post.edge_ok(n_post.id, #[trigger] n_post.layers@[l2]@[k], l2) by {
                    let e = n_post.layers@[l2]@[k];
                    if t == j as int && l2 == l as int {
                        assert(pre.edge_ok(pre.nodes@[j as int].id, e, l2));
                    } else {
                        assert(n_post.layers@[l2] == n_pre.layers@[l2]);
                        assert(pre.edge_ok(n_pre.id, e, l2));
                    }
                    assert(pre.contains_id(e));
                    assert(post.contains_id(e));
                    assert(post.node_of(e).layers@.len() == pre.node_of(e).layers@.len());
                }
            }
            match post.entry_point {
                None => {},
                Some(ep) => {
                    assert(pre.contains_id(ep));
                    assert(post.node_of(ep).layers@.len() == pre.node_of(ep).layers@.len());
                },
            }
        }
    }

    /// Among sorted candidates, keep the ids of the closest `m`.
    fn prune_list(&self, owner_vec: &Vec<i64>, list: &Vec<u32>, cap: usize) -> (r: Vec<u32>)
        requires
            self.ids_distinct(),
            self.vectors_ok(),
            cap >= 1,
            coords_ok(owner_vec@),
            owner_vec@.len() == self.spec_dim(),
            forall|k: int| 0 <= k < list@.len() ==> self.contains_id(#[trigger] list@[k]),
        ensures
            r@.len() == if cap <= list@.len() {
                cap as int
            } else {
                list@.len() as int
            },
            forall|i: int| 0 <= i < r@.len() ==> list@.contains(#[trigger] r@[i]),
            forall|i: int, x: u32|
                #![trigger r@[i], list@.contains(x)]
                0 <= i < r@.len() && list@.contains(x) && !r@.contains(x) ==> spec_dist_sq(
                    owner_vec@,
                    self.vector_of(r@[i]),
                ) <= spec_dist_sq(owner_vec@, self.vector_of(x)),
    {
        let mut pairs: Vec<(u32, u128)> = Vec::new();
        let mut i: usize = 0;
        while i < list.len()
            invariant
                self.ids_distinct(),
                self.vectors_ok(),
                coords_ok(owner_vec@),
                owner_vec@.len() == self.spec_dim(),
                forall|k: int| 0 <= k < list@.len() ==> self.contains_id(#[trigger] list@[k]),
                i <= list@.len(),
                pairs@.len() == i,
                sorted_by_dist(pairs@),
                forall|t: int| 0 <= t < pairs@.len() ==> list@.contains((#[trigger] pairs@[t]).0),
                forall|t: int|
                    0 <= t < pairs@.len() ==> (#[trigger] pairs@[t]).1 == spec_dist_sq(
                        owner_vec@,
                        self.vector_of(pairs@[t].0),
                    ),
                forall|t: int|
                    #![trigger list@[t]]
                    0 <= t < i ==> exists|w: int|
                        0 <= w < pairs@.len() && (#[trigger] pairs@[w]).0 == list@[t],
            decreases list@.len() - i,
        {
            let x = list[i];
            let d = self.dist_to(owner_vec, x);
            let ghost p0 = pairs@;
            insert_sorted(&mut pairs, (x, d));
            proof {
                let p = choose|p: int| 0 <= p <= p0.len() && pairs@ == p0.insert(p, (x, d));
                lemma_insert_elems(p0, p, (x, d));
                assert(list@.contains(x));
                assert forall|t: int|
                    0 <= t < pairs@.len() implies list@.contains((#[trigger] pairs@[t]).0)
                    && (#[trigger] pairs@[t]).1 == spec_dist_sq(
                    owner_vec@,
                    self.vector_of(pairs@[t].0),
                ) by {
                    if pairs@[t] != (x, d) {
                        assert(p0.contains(pairs@[t]));
                        let w = choose|w: int| 0 <= w < p0.len() && p0[w] == pairs@[t];
                        assert(list@.contains(p0[w].0));
                    }
                }
                assert forall|t: int| #![trigger list@[t]] 0 <= t <= i implies exists|w: int|
                    0 <= w < pairs@.len() && (#[trigger] pairs@[w]).0 == list@[t] by {
                    if t < i {
                        let w0 = choose|w0: int| 0 <= w0 < p0.len() && (#[trigger] p0[w0]).0
                            == list@[t];
                        if w0 < p {
                            assert(pairs@[w0] == p0[w0]);
                        } else {
                            assert(pairs@[w0 + 1] == p0[w0]);
                        }
                    } else {
                        assert(pairs@[p].0 == list@[t]);
                    }
                }
            }
            i = i + 1;
        }
        let r = select_neighbors(&pairs, cap);
        proof {
            assert forall|t: int| 0 <= t < r@.len() implies list@.contains(#[trigger] r@[t]) by {
                assert(r@[t] == pairs@[t].0);
            }
            assert forall|t: int, x: u32|
                #![trigger r@[t], list@.contains(x)]
                0 <= t < r@.len() && list@.contains(x) && !r@.contains(x) implies spec_dist_sq(
                owner_vec@,
                self.vector_of(r@[t]),
            ) <= spec_dist_sq(owner_vec@, self.vector_of(x)) by {
                let u = choose|u: int| 0 <= u < list@.len() && list@[u] == x;
                let w = choose|w: int| 0 <= w < pairs@.len() && (#[trigger] pairs@[w]).0
                    == list@[u];
                if w < r@.len() {
                    assert(r@[w] == pairs@[w].0);
                    assert(r@.contains(x));
                } else {
                    assert(pairs@[t as int].1 <= pairs@[w].1);
                    assert(r@[t] == pairs@[t as int].0);
                }
            }
        }
        r
    }
}

/// The ids of the first `m` (closest, if sorted) candidates.
fn select_neighbors(cands: &Vec<(u32, u128)>, m: usize) -> (r: Vec<u32>)
    ensures
        r@.len() == if m <= cands@.len() {
            m as int
        } else {
            cands@.len() as int
        },
        forall|i: int| 0 <= i < r@.len() ==> r@[i] == (#[trigger] cands@[i]).0,
{
    let mut r: Vec<u32> = Vec::new();
    let mut i: usize = 0;
    while i < cands.len() && i < m
        invariant
            i <= cands@.len(),
            i <= m,
            r@.len() == i,
            forall|t: int| 0 <= t < i ==> r@[t] == (#[trigger] cands@[t]).0,
        decreases cands@.len() - i,
    {
        r.push(cands[i].0);
        i = i + 1;
    }
    r
}

/// `count` empty adjacency lists.
fn empty_layers(count: usize) -> (r: Vec<Vec<u32>>)
    ensures
        r@.len() == count,
        forall|i: int| 0 <= i < r@.len() ==> (#[trigger] r@[i])@.len() == 0,
{
    let mut r: Vec<Vec<u32>> = Vec::new();
    let mut i: usize = 0;
    while i < count
        invariant
            i <= count,
            r@.len() == i,
            forall|t: int| 0 <= t < i ==> (#[trigger] r@[t])@.len() == 0,
        decreases count - i,
    {
        r.push(Vec::new());
        i = i + 1;
    }
    r
}

/// Appending a node with a fresh id keeps all existing lookups and
/// adds the new one.
proof fn lemma_push_node(pre: Hnsw, post: Hnsw, nd: Node)
    requires
        pre.ids_distinct(),
        !pre.contains_id(nd.id),
        post.nodes@ == pre.nodes@.push(nd),
    ensures
        post.ids_distinct(),
        forall|x: u32|
            #[trigger] pre.contains_id(x) ==> post.contains_id(x) && post.idx_of(x) == pre.idx_of(
                x,
            ) && post.node_of(x) == pre.node_of(x),
        post.contains_id(nd.id),
        post.idx_of(nd.id) == pre.nodes@.len(),
        post.node_of(nd.id) == nd,
        forall|x: u32| #[trigger] post.contains_id(x) ==> pre.contains_id(x) || x == nd.id,
{
    let n = pre.nodes@.len() as int;
    assert(post.nodes@.len() == n + 1);
    assert(forall|t: int| 0 <= t < n ==> post.nodes@[t] == pre.nodes@[t]);
    assert(post.nodes@[n] == nd);
    assert forall|t: int| 0 <= t < n implies (#[trigger] pre.nodes@[t]).id != nd.id by {
        if pre.nodes@[t].id == nd.id {
            assert(pre.contains_id(nd.id));
        }
    }
    assert forall|j: int, k: int|
        0 <= j < k < post.nodes@.len() implies (#[trigger] post.nodes@[j]).id != (
    #[trigger] post.nodes@[k]).id by {
        if k == n {
            assert(post.nodes@[k].id == nd.id);
        }
    }
    assert(post.contains_id(nd.id)) by {
        assert(post.nodes@[n].id == nd.id);
    }
    assert forall|x: u32| #[trigger] pre.contains_id(x) implies post.contains_id(x)
        && post.idx_of(x) == pre.idx_of(x) && post.node_of(x) == pre.node_of(x) by {
        let w = pre.idx_of(x);
        assert(0 <= w < n && pre.nodes@[w].id == x);
        assert(post.nodes@[w].id == x);
        assert(post.contains_id(x));
        let w2 = post.idx_of(x);
        assert(0 <= w2 < n + 1 && post.nodes@[w2].id == x);
        if w2 == n {
            assert(nd.id == x);
            assert(false);
        }
        if w2 != w {
            assert(pre.nodes@[w2].id == x);
            assert(false);
        }
    }
    let w = post.idx_of(nd.id);
    assert(0 <= w < n + 1 && post.nodes@[w].id == nd.id);
    if w < n {
        assert(pre.nodes@[w].id == nd.id);
        assert(false);
    }
    assert forall|x: u32| #[trigger] post.contains_id(x) implies pre.contains_id(x) || x
        == nd.id by {
        let w3 = post.idx_of(x);
        assert(0 <= w3 < n + 1 && post.nodes@[w3].id == x);
        if w3 < n {
            assert(pre.contains_id(x));
        }
    }
}

/// Relies on rand::random: a fresh pseudo-random draw; nothing is
/// assumed about its value.
#[verifier::external_body]
fn random_u64() -> u64 {
    rand::random::<u64>()
}

impl Hnsw {
    /// `id` appears in no adjacency list at any layer `<= l`.
    pub open spec fn fresh_below(self, id: u32, l: int) -> bool {
        forall|t: int, l2: int, k: int|
            0 <= t < self.nodes@.len() && 0 <= l2 < self.nodes@[t].layers@.len() && l2 <= l && 0
                <= k < self.nodes@[t].layers@[l2]@.len() ==> #[trigger] self.nodes@[t].layers@[l2]@[k]
                != id
    }

    /// Geometric level assignment: one more layer with probability
    /// `1 / m` each round, capped at 64.
    fn random_level(&self) -> (r: usize)
        requires
            2 <= self.m,
        ensures
            r <= 64,
    {
        let mut level: usize = 0;
        while level < 64
            invariant
                2 <= self.m,
                level <= 64,
            ensures
                level <= 64,
            decreases 64 - level,
        {
            let draw = random_u64();
            if draw % (self.m as u64) == 0 {
                level = level + 1;
            } else {
                break;
            }
        }
        level
    }

    /// Insert a record, drawing the layer level at random.
    pub fn insert(&mut self, id: u32, vector: Vec<i64>)
        requires
            old(self).wf(),
            !old(self).contains_id(id),
            coords_ok(vector@),
            old(self).nodes@.len() > 0 ==> vector@.len() == old(self).spec_dim(),
        ensures
            final(self).wf(),
            final(self).contains_id(id),
            final(self).vector_of(id) == vector@,
            final(self).nodes@.len() == old(self).nodes@.len() + 1,
            forall|x: u32|
                final(self).contains_id(x) <==> (old(self).contains_id(x) || x == id),
            forall|x: u32|
                #[trigger] old(self).contains_id(x) ==> final(self).vector_of(x) == old(self).vector_of(x),
            final(self).m == old(self).m,
            final(self).m_max0 == old(self).m_max0,
            final(self).ef_construction == old(self).ef_construction,
            old(self).nodes@.len() == 0 ==> final(self).entry_point == Some(id),
            final(self).spec_dim() == if old(self).nodes@.len() == 0 {
                vector@.len() as int
            } else {
                old(self).spec_dim()
            },
            forall|t: int|
                0 <= t < old(self).nodes@.len() ==> (#[trigger] final(self).nodes@[t]).id == old(
                    self,
                ).nodes@[t].id && final(self).nodes@[t].vector@ == old(self).nodes@[t].vector@,
            final(self).nodes@[old(self).nodes@.len() as int].id == id,
            final(self).nodes@[old(self).nodes@.len() as int].vector@ == vector@,
            0 <= final(self).top_layer_of(id) <= 64,
            old(self).nodes@.len() == 0 ==> (forall|l: int|
                0 <= l <= final(self).top_layer_of(id) ==> final(self).adjacency(id, l).len()
                    == 0),
            old(self).nodes@.len() > 0 ==> (forall|l: int|
                0 <= l <= int_min(final(self).top_layer_of(id), old(self).max_layers as int)
                    ==> final(self).adjacency(id, l).len() >= 1),
            old(self).nodes@.len() > 0 ==> (forall|l: int|
                int_min(final(self).top_layer_of(id), old(self).max_layers as int) < l <= final(self).top_layer_of(id) ==> final(self).adjacency(id, l).len() == 0),
            forall|t: int, l2: int|
                #![trigger old(self).nodes@[t].layers@[l2]]
                0 <= t < old(self).nodes@.len() && 0 <= l2 < old(self).nodes@[t].layers@.len()
                    ==> final(self).nodes@[t].layers@[l2]@ == old(self).nodes@[t].layers@[l2]@ || (
                l2 <= int_min(final(self).top_layer_of(id), old(self).max_layers as int)
                    && link_step(
                    *final(self),
                    old(self).nodes@[t].vector@,
                    old(self).nodes@[t].layers@[l2]@,
                    final(self).nodes@[t].layers@[l2]@,
                    id,
                    old(self).layer_cap(l2),
                )),
    {
        let level = self.random_level();
        self.insert_with_level(id, vector, level);
        proof {
            assert(self.top_layer_of(id) == level as int);
            assert(old(self).insertion_band(level) == int_min(
                self.top_layer_of(id),
                old(self).max_layers as int,
            ));
        }
    }

    /// Insert a record at an explicit level: greedy descent to the
    /// insertion band, then per-layer candidate search, neighbour
    /// selection, bidirectional linking and pruning.
    #[verifier::loop_isolation(false)]
    #[verifier::rlimit(100)]
    pub fn insert_with_level(&mut self, id: u32, vector: Vec<i64>, level: usize)
        requires
            old(self).wf(),
            !old(self).contains_id(id),
            coords_ok(vector@),
            old(self).nodes@.len() > 0 ==> vector@.len() == old(self).spec_dim(),
            level <= 64,
        ensures
            final(self).wf(),
            final(self).contains_id(id),
            final(self).vector_of(id) == vector@,
            final(self).top_layer_of(id) == level as int,
            final(self).nodes@.len() == old(self).nodes@.len() + 1,
            forall|x: u32|
                final(self).contains_id(x) <==> (old(self).contains_id(x) || x == id),
            forall|x: u32|
                #[trigger] old(self).contains_id(x) ==> final(self).vector_of(x) == old(self).vector_of(x),
            final(self).m == old(self).m,
            final(self).m_max0 == old(self).m_max0,
            final(self).ef_construction == old(self).ef_construction,
            old(self).nodes@.len() == 0 ==> final(self).entry_point == Some(id) && final(self).max_layers == level,
            old(self).nodes@.len() > 0 && level > old(self).max_layers ==> final(self).entry_point == Some(id) && final(self).max_layers == level,
            old(self).nodes@.len() > 0 && level <= old(self).max_layers ==> final(self).entry_point == old(self).entry_point && final(self).max_layers == old(self).max_layers,
            final(self).spec_dim() == if old(self).nodes@.len() == 0 {
                vector@.len() as int
            } else {
                old(self).spec_dim()
            },
            forall|t: int|
                0 <= t < old(self).nodes@.len() ==> (#[trigger] final(self).nodes@[t]).id == old(
                    self,
                ).nodes@[t].id && final(self).nodes@[t].vector@ == old(self).nodes@[t].vector@,
            final(self).nodes@[old(self).nodes@.len() as int].id == id,
            final(self).nodes@[old(self).nodes@.len() as int].vector@ == vector@,
            old(self).nodes@.len() == 0 ==> (forall|l: int|
                0 <= l <= level as int ==> final(self).adjacency(id, l).len() == 0),
            old(self).nodes@.len() > 0 ==> (forall|l: int|
                0 <= l <= old(self).insertion_band(level) ==> final(self).adjacency(id, l).len()
                    >= 1),
            old(self).nodes@.len() > 0 ==> (forall|l: int|
                old(self).insertion_band(level) < l <= level as int ==> final(self).adjacency(
                    id,
                    l,
                ).len() == 0),
            forall|t: int, l2: int|
                #![trigger old(self).nodes@[t].layers@[l2]]
                0 <= t < old(self).nodes@.len() && 0 <= l2 < old(self).nodes@[t].layers@.len()
                    ==> final(self).nodes@[t].layers@[l2]@ == old(self).nodes@[t].layers@[l2]@ || (
                l2 <= old(self).insertion_band(level) && link_step(
                    *final(self),
                    old(self).nodes@[t].vector@,
                    old(self).nodes@[t].layers@[l2]@,
                    final(self).nodes@[t].layers@[l2]@,
                    id,
                    old(self).layer_cap(l2),
                )),
    {
        let ghost pre = *old(self);
        let nd_vec = clone_i64_vec(&vector);
        let nd_layers = empty_layers(level + 1);
        let node = Node { id, vector: nd_vec, layers: nd_layers };
        let ghost nd = node;

        if self.nodes.len() == 0 {
            self.nodes.push(node);
            self.entry_point = Some(id);
            self.max_layers = level;
            proof {
                lemma_push_node(pre, *self, nd);
                assert forall|j: int| 0 <= j < self.nodes@.len() implies self.node_wf(j) by {
                    assert(self.nodes@[j] == nd);
                }
                assert(self.node_of(id) == nd);
                assert(self.wf());
                assert forall|l: int| 0 <= l <= level as int implies self.adjacency(
                    id,
                    l,
                ).len() == 0 by {
                    assert(self.node_of(id) == nd);
                    assert(nd.layers@[l]@.len() == 0);
                }
            }
            return;
        }

        // phase 1: greedy descent from the top layer to just above the
        // insertion band
        let old_max = self.max_layers;
        let ep0 = if let Some(e) = self.entry_point {
            e
        } else {
            proof {
                assert(false);
            }
            0
        };
        let ghost lstart_g: int = if (level as int) <= (old_max as int) {
            level as int
        } else {
            old_max as int
        };
        let mut curr_ep = ep0;
        let mut l: usize = old_max;
        while l > level
            invariant
                l <= old_max,
                lstart_g <= l,
                self.contains_id(curr_ep),
                (l as int) < self.node_of(curr_ep).layers@.len(),
            decreases l,
        {
            curr_ep = self.greedy_closest(&vector, curr_ep, l);
            l = l - 1;
        }
        proof {
            assert(l as int == lstart_g);
            assert(curr_ep != id);
        }

        // the arena gets the node; the entry rule is restored at once
        let node_pos = self.nodes.len();
        self.nodes.push(node);
        if level > old_max {
            self.entry_point = Some(id);
            self.max_layers = level;
        }
        proof {
            lemma_push_node(pre, *self, nd);
            let pp = *self;
            let n = pre.nodes@.len() as int;
            assert(pp.nodes@[0] == pre.nodes@[0]);
            assert(pp.spec_dim() == pre.spec_dim());
            assert forall|j: int|
                0 <= j < pp.nodes@.len() implies (#[trigger] pp.nodes@[j]).vector@.len()
                == pp.spec_dim() && coords_ok(pp.nodes@[j].vector@) by {
                if j < n {
                    assert(pre.nodes@[j].vector@.len() == pre.spec_dim());
                } else {
                    assert(pp.nodes@[j] == nd);
                }
            }
            assert forall|j: int| 0 <= j < pp.nodes@.len() implies pp.node_wf(j) by {
                if j < n {
                    assert(pre.node_wf(j));
                    let np = pp.nodes@[j];
                    assert forall|l2: int, k: int|
                        0 <= l2 < np.layers@.len() && 0 <= k < np.layers@[l2]@.len() implies
                        pp.edge_ok(np.id, #[trigger] np.layers@[l2]@[k], l2) by {
                        let e = np.layers@[l2]@[k];
                        assert(pre.edge_ok(np.id, e, l2));
                        assert(pre.contains_id(e));
                        assert(pp.node_of(e) == pre.node_of(e));
                    }
                } else {
                    assert(pp.nodes@[j] == nd);
                    assert(nd.layers@.len() == level + 1);
                }
            }
            match pp.entry_point {
                None => {
                    assert(false);
                },
                Some(ep) => {
                    if level > old_max {
                        assert(ep == id);
                        assert(pp.node_of(id) == nd);
                    } else {
                        assert(pre.contains_id(ep));
                        assert(pp.node_of(ep) == pre.node_of(ep));
                    }
                },
            }
            assert(pp.wf());
            assert forall|t: int, l2: int, k: int|
                0 <= t < pp.nodes@.len() && 0 <= l2 < pp.nodes@[t].layers@.len() && l2 <= 64 && 0
                    <= k < pp.nodes@[t].layers@[l2]@.len() implies #[trigger] pp.nodes@[t].layers@[l2]@[k]
                != id by {
                if t < n {
                    let e = pp.nodes@[t].layers@[l2]@[k];
                    assert(pre.node_wf(t));
                    assert(pre.edge_ok(pre.nodes@[t].id, e, l2));
                    assert(pre.contains_id(e));
                } else {
                    assert(pp.nodes@[t] == nd);
                }
            }
            assert(pp.fresh_below(id, lstart_g));
            assert(pp.contains_id(curr_ep));
            assert(pp.node_of(curr_ep) == pre.node_of(curr_ep));
        }
        let ghost pre2 = *self;
        proof {
            assert(pre2.wf());
            assert(pre2.idx_of(id) == node_pos as int);
            assert(forall|t: int|
                0 <= t < pre.nodes@.len() ==> #[trigger] pre2.nodes@[t] == pre.nodes@[t]);
            assert(pre2.nodes@[node_pos as int] == nd);
            assert(forall|l2: int|
                0 <= l2 <= level as int ==> (#[trigger] nd.layers@[l2])@.len() == 0);
        }

        // phase 2: per-layer candidate search, linking and pruning
        let mut l: usize = if level < old_max {
            level
        } else {
            old_max
        };
        proof {
            assert(l as int == lstart_g);
        }
        let mut done: bool = false;
        while !done
            invariant
                !done ==> (l as int) < pre2.node_of(curr_ep).layers@.len(),
                !done ==> self.fresh_below(id, l as int),
                self.wf(),
                same_skeleton(pre2, *self),
                self.entry_point == pre2.entry_point,
                self.max_layers == pre2.max_layers,
                self.m == pre2.m,
                self.m_max0 == pre2.m_max0,
                self.ef_construction == pre2.ef_construction,
                self.nodes@.len() == pre2.nodes@.len(),
                self.spec_dim() == vector@.len(),
                pre2.contains_id(curr_ep),
                curr_ep != id,
                l <= lstart_g,
                !done ==> (forall|t: int, l2: int|
                    #![trigger self.nodes@[t].layers@[l2]]
                    0 <= t < pre.nodes@.len() && 0 <= l2 <= l as int && l2
                        < self.nodes@[t].layers@.len() ==> self.nodes@[t].layers@[l2]@
                        == pre.nodes@[t].layers@[l2]@),
                forall|l2: int|
                    (if done { 0int } else { l as int + 1 }) <= l2 <= lstart_g
                        ==> (#[trigger] self.nodes@[node_pos as int].layers@[l2])@.len() >= 1,
                forall|l2: int|
                    lstart_g < l2 <= level as int ==> (
                    #[trigger] self.nodes@[node_pos as int].layers@[l2])@.len() == 0,
                forall|t: int, l2: int|
                    #![trigger pre.nodes@[t].layers@[l2]]
                    0 <= t < pre.nodes@.len() && 0 <= l2 < pre.nodes@[t].layers@.len()
                        ==> self.nodes@[t].layers@[l2]@ == pre.nodes@[t].layers@[l2]@ || (l2
                        <= lstart_g && link_step(
                        pre2,
                        pre.nodes@[t].vector@,
                        pre.nodes@[t].layers@[l2]@,
                        self.nodes@[t].layers@[l2]@,
                        id,
                        pre.layer_cap(l2),
                    )),
            decreases (if done { 0int } else { l as int + 1 }),
        {
            proof {
                lemma_same_skeleton(pre2, *self);
            }
            let ghost at_search = *self;
            let efc = self.ef_construction;
            let cands = self.search_layer(&vector, curr_ep, efc, l);
            let selected = select_neighbors(&cands, self.m);
            proof {
                assert forall|s: int| 0 <= s < selected@.len() implies pre2.contains_id(
                    #[trigger] selected@[s],
                ) && (l as int) < pre2.node_of(selected@[s]).layers@.len() && selected@[s]
                    != id by {
                    let x = selected@[s];
                    assert(x == cands@[s].0);
                    assert(at_search.sl_ok_pair(vector@, curr_ep, l as int, cands@[s]));
                    assert(at_search.contains_id(x));
                    if x != curr_ep {
                        assert(at_search.in_some_adjacency(x, l as int));
                        let (t, k) = choose|t: int, k: int|
                            0 <= t < at_search.nodes@.len() && 0 <= (l as int)
                                < at_search.nodes@[t].layers@.len() && 0 <= k
                                < at_search.nodes@[t].layers@[l as int]@.len()
                                && #[trigger] at_search.nodes@[t].layers@[l as int]@[k] == x;
                        assert(at_search.nodes@[t].layers@[l as int]@[k] != id);
                    }
                }
                assert(selected@.len() >= 1);
                assert forall|a: int, b: int|
                    0 <= a < b < selected@.len() implies (#[trigger] selected@[a]) != (
                #[trigger] selected@[b]) by {
                    assert(selected@[a] == cands@[a].0);
                    assert(selected@[b] == cands@[b].0);
                }
                assert forall|s2: int|
                    0 <= s2 < selected@.len() implies 0 <= pre2.idx_of(#[trigger] selected@[s2])
                    < pre.nodes@.len() && pre2.nodes@[pre2.idx_of(selected@[s2])].id
                    == selected@[s2] by {
                    assert(pre2.contains_id(selected@[s2]));
                    let w = pre2.idx_of(selected@[s2]);
                    assert(0 <= w < pre2.nodes@.len() && pre2.nodes@[w].id == selected@[s2]);
                    if w == node_pos as int {
                        assert(pre2.nodes@[w] == nd);
                    }
                }
            }
            let own_list = clone_u32_vec(&selected);
            self.set_adjacency(node_pos, l, own_list);
            proof {
                assert(same_skeleton(pre2, *self));
                assert(forall|t: int|
                    0 <= t < pre.nodes@.len() ==> #[trigger] self.nodes@[t]
                        == at_search.nodes@[t]);
                assert(self.nodes@[node_pos as int].layers@[l as int]@.len() >= 1);
                assert forall|l2: int|
                    lstart_g < l2 <= level as int implies (
                #[trigger] self.nodes@[node_pos as int].layers@[l2])@.len() == 0 by {
                    assert(self.nodes@[node_pos as int].layers@[l2]
                        == at_search.nodes@[node_pos as int].layers@[l2]);
                }
                assert(self.fresh_below(id, l as int)) by {
                    assert forall|t: int, l2: int, k: int|
                        0 <= t < self.nodes@.len() && 0 <= l2 < self.nodes@[t].layers@.len() && l2
                            <= l as int && 0 <= k < self.nodes@[t].layers@[l2]@.len() implies
                        #[trigger] self.nodes@[t].layers@[l2]@[k] != id by {
                        if t == node_pos as int && l2 == l as int {
                        } else if t == node_pos as int {
                            assert(self.nodes@[t].layers@[l2]
                                == at_search.nodes@[t].layers@[l2]);
                        } else {
                            assert(self.nodes@[t] == at_search.nodes@[t]);
                        }
                    }
                }
            }
            let mut s: usize = 0;
            while s < selected.len()
                invariant
                    s <= selected@.len(),
                    self.wf(),
                    same_skeleton(pre2, *self),
                    self.entry_point == pre2.entry_point,
                    self.max_layers == pre2.max_layers,
                    self.m == pre2.m,
                    self.m_max0 == pre2.m_max0,
                    self.ef_construction == pre2.ef_construction,
                    self.nodes@.len() == pre2.nodes@.len(),
                    self.spec_dim() == vector@.len(),
                    self.fresh_below(id, l as int - 1),
                    forall|t: int, l2: int|
                        #![trigger self.nodes@[t].layers@[l2]]
                        0 <= t < pre.nodes@.len() && 0 <= l2 < l as int && l2
                            < self.nodes@[t].layers@.len() ==> self.nodes@[t].layers@[l2]@
                            == pre.nodes@[t].layers@[l2]@,
                    forall|s2: int|
                        s <= s2 < selected@.len() ==> self.nodes@[pre2.idx_of(
                            #[trigger] selected@[s2],
                        )].layers@[l as int]@ == pre.nodes@[pre2.idx_of(
                            selected@[s2],
                        )].layers@[l as int]@,
                    forall|l2: int|
                        l as int <= l2 <= lstart_g ==> (
                        #[trigger] self.nodes@[node_pos as int].layers@[l2])@.len() >= 1,
                    forall|l2: int|
                        lstart_g < l2 <= level as int ==> (
                        #[trigger] self.nodes@[node_pos as int].layers@[l2])@.len() == 0,
                    forall|t: int, l2: int|
                        #![trigger pre.nodes@[t].layers@[l2]]
                        0 <= t < pre.nodes@.len() && 0 <= l2 < pre.nodes@[t].layers@.len()
                            ==> self.nodes@[t].layers@[l2]@ == pre.nodes@[t].layers@[l2]@ || (l2
                            <= lstart_g && link_step(
                            pre2,
                            pre.nodes@[t].vector@,
                            pre.nodes@[t].layers@[l2]@,
                            self.nodes@[t].layers@[l2]@,
                            id,
                            pre.layer_cap(l2),
                        )),
                decreases selected@.len() - s,
            {
                let nb = selected[s];
                proof {
                    lemma_same_skeleton(pre2, *self);
                    assert(self.contains_id(nb));
                    assert(self.node_of(nb).layers@.len() == pre2.node_of(nb).layers@.len());
                    assert(self.node_of(id).layers@.len() == pre2.node_of(id).layers@.len());
                    assert(pre2.node_of(id) == nd);
                }
                let nbj = self.find_idx(nb);
                let ghost before = *self;
                let ghost prelist = pre.nodes@[nbj as int].layers@[l as int]@;
                proof {
                    assert(pre2.contains_id(nb));
                    assert(nbj as int == pre2.idx_of(nb));
                    assert(0 <= pre2.idx_of(selected@[s as int]) < pre.nodes@.len());
                    assert(nbj < pre.nodes@.len());
                    assert(pre2.nodes@[nbj as int].id == nb);
                    assert(nbj != node_pos) by {
                        if nbj == node_pos {
                            assert(pre2.nodes@[node_pos as int] == nd);
                        }
                    }
                    assert(self.nodes@[nbj as int].layers@[l as int]@ == prelist);
                }
                let mut lst = clone_u32_vec(&self.nodes[nbj].layers[l]);
                lst.push(id);
                proof {
                    assert(self.node_wf(nbj as int));
                    assert forall|k: int| 0 <= k < lst@.len() implies self.contains_id(
                        #[trigger] lst@[k],
                    ) && self.edge_ok(self.nodes@[nbj as int].id, lst@[k], l as int) by {
                        if k < lst@.len() - 1 {
                            assert(lst@[k] == self.nodes@[nbj as int].layers@[l as int]@[k]);
                            assert(self.edge_ok(
                                self.nodes@[nbj as int].id,
                                self.nodes@[nbj as int].layers@[l as int]@[k],
                                l as int,
                            ));
                        } else {
                            assert(lst@[k] == id);
                        }
                    }
                }
                let cap = if l == 0 {
                    self.m_max0
                } else {
                    self.m
                };
                proof {
                    assert(cap as int == pre.layer_cap(l as int));
                    assert(lst@ == prelist.push(id));
                    assert forall|k: int| 0 <= k < prelist.len() implies pre2.contains_id(
                        #[trigger] prelist[k],
                    ) by {
                        assert(pre.node_wf(nbj as int));
                        assert(pre.edge_ok(pre.nodes@[nbj as int].id, prelist[k], l as int));
                        assert(pre.contains_id(prelist[k]));
                    }
                    assert(before.nodes@[nbj as int].vector@ == pre.nodes@[nbj as int].vector@);
                }
                if lst.len() > cap {
                    let ov = clone_i64_vec(&self.nodes[nbj].vector);
                    let pruned = self.prune_list(&ov, &lst, cap);
                    proof {
                        assert forall|k: int| 0 <= k < pruned@.len() implies self.edge_ok(
                            self.nodes@[nbj as int].id,
                            #[trigger] pruned@[k],
                            l as int,
                        ) by {
                            assert(lst@.contains(pruned@[k]));
                            let w = choose|w: int| 0 <= w < lst@.len() && lst@[w] == pruned@[k];
                        }
                        // the rebuilt list is a pruning link step
                        assert(pruned@.len() == cap as int);
                        lemma_prune_is_link_step(
                            before,
                            pre.nodes@[nbj as int].vector@,
                            prelist,
                            lst@,
                            pruned@,
                            id,
                            cap as int,
                        );
                        assert(same_skeleton(before, pre2));
                        assert forall|k: int| 0 <= k < prelist.len() implies before.contains_id(
                            #[trigger] prelist[k],
                        ) by {
                            assert(pre2.contains_id(prelist[k]));
                        }
                        lemma_link_step_transfer(
                            before,
                            pre2,
                            pre.nodes@[nbj as int].vector@,
                            prelist,
                            pruned@,
                            id,
                            cap as int,
                        );
                    }
                    self.set_adjacency(nbj, l, pruned);
                } else {
                    proof {
                        assert(link_step(
                            pre2,
                            pre.nodes@[nbj as int].vector@,
                            prelist,
                            lst@,
                            id,
                            cap as int,
                        )) by {
                            assert(prelist.len() + 1 <= cap as int);
                        }
                    }
                    self.set_adjacency(nbj, l, lst);
                }
                proof {
                    assert(link_step(
                        pre2,
                        pre.nodes@[nbj as int].vector@,
                        prelist,
                        self.nodes@[nbj as int].layers@[l as int]@,
                        id,
                        pre.layer_cap(l as int),
                    ));
                    assert(forall|t: int|
                        0 <= t < self.nodes@.len() && t != nbj as int
                            ==> #[trigger] self.nodes@[t] == before.nodes@[t]);
                    assert(forall|l2: int|
                        0 <= l2 < before.nodes@[nbj as int].layers@.len() && l2 != l as int
                            ==> #[trigger] self.nodes@[nbj as int].layers@[l2]
                            == before.nodes@[nbj as int].layers@[l2]);
                    // the remaining targets are still untouched at this layer
                    assert forall|s2: int|
                        s + 1 <= s2 < selected@.len() implies self.nodes@[pre2.idx_of(
                        #[trigger] selected@[s2],
                    )].layers@[l as int]@ == pre.nodes@[pre2.idx_of(
                        selected@[s2],
                    )].layers@[l as int]@ by {
                        let w = pre2.idx_of(selected@[s2]);
                        assert(pre2.nodes@[w].id == selected@[s2]);
                        if w == nbj as int {
                            assert(selected@[s2] == nb);
                            assert(selected@[s as int] == nb);
                        }
                        assert(self.nodes@[w] == before.nodes@[w]);
                    }
                    // the frame is preserved, with this pair now a link step
                    assert forall|t: int, l2: int|
                        #![trigger pre.nodes@[t].layers@[l2]]
                        0 <= t < pre.nodes@.len() && 0 <= l2 < pre.nodes@[t].layers@.len()
                            implies self.nodes@[t].layers@[l2]@ == pre.nodes@[t].layers@[l2]@ || (
                    l2 <= lstart_g && link_step(
                        pre2,
                        pre.nodes@[t].vector@,
                        pre.nodes@[t].layers@[l2]@,
                        self.nodes@[t].layers@[l2]@,
                        id,
                        pre.layer_cap(l2),
                    )) by {
                        if t == nbj as int && l2 == l as int {
                        } else if t == nbj as int {
                            assert(self.nodes@[t].layers@[l2] == before.nodes@[t].layers@[l2]);
                        } else {
                            assert(self.nodes@[t] == before.nodes@[t]);
                        }
                    }
                }
                proof {
                    assert(same_skeleton(pre2, *self));
                    assert(self.fresh_below(id, l as int - 1)) by {
                        assert forall|t: int, l2: int, k: int|
                            0 <= t < self.nodes@.len() && 0 <= l2 < self.nodes@[t].layers@.len()
                                && l2 <= l as int - 1 && 0 <= k
                                < self.nodes@[t].layers@[l2]@.len() implies
                            #[trigger] self.nodes@[t].layers@[l2]@[k] != id by {
                            if t == nbj as int {
                                assert(self.nodes@[t].layers@[l2]
                                    == before.nodes@[t].layers@[l2]);
                            } else {
                                assert(self.nodes@[t] == before.nodes@[t]);
                            }
                        }
                    }
                }
                s = s + 1;
            }
            let next_ep = cands[0].0;
            proof {
                assert(at_search.sl_ok_pair(vector@, curr_ep, l as int, cands@[0]));
                assert(at_search.contains_id(next_ep));
                if next_ep != curr_ep {
                    assert(at_search.in_some_adjacency(next_ep, l as int));
                    let (t, k) = choose|t: int, k: int|
                        0 <= t < at_search.nodes@.len() && 0 <= (l as int)
                            < at_search.nodes@[t].layers@.len() && 0 <= k
                            < at_search.nodes@[t].layers@[l as int]@.len()
                            && #[trigger] at_search.nodes@[t].layers@[l as int]@[k] == next_ep;
                    assert(at_search.nodes@[t].layers@[l as int]@[k] != id);
                }
                assert(pre2.contains_id(next_ep));
                assert((l as int) < pre2.node_of(next_ep).layers@.len());
            }
            curr_ep = next_ep;
            if l == 0 {
                done = true;
            } else {
                l = l - 1;
            }
        }
        proof {
            lemma_same_skeleton(pre2, *self);
            assert(pre2.contains_id(id));
            assert(pre2.node_of(id) == nd);
            assert(self.vector_of(id) == nd.vector@);
            assert(self.node_of(id).layers@.len() == level + 1);
            assert forall|x: u32|
                #[trigger] pre.contains_id(x) implies self.vector_of(x) == pre.vector_of(x) by {
                assert(pre2.node_of(x) == pre.node_of(x));
                assert(pre2.contains_id(x));
                assert(self.vector_of(x) == pre2.vector_of(x));
            }
            assert forall|x: u32| self.contains_id(x) implies (pre.contains_id(x) || x
                == id) by {
                assert(pre2.contains_id(x));
            }
            assert forall|x: u32| pre.contains_id(x) || x == id implies self.contains_id(
                x,
            ) by {
                if x == id {
                    assert(pre2.contains_id(id));
                } else {
                    assert(pre2.contains_id(x));
                }
            }
            assert(self.idx_of(id) == node_pos as int);
            assert(self.node_of(id) == self.nodes@[node_pos as int]);
            assert(pre.insertion_band(level) == lstart_g);
            assert forall|l2: int| 0 <= l2 <= lstart_g implies self.adjacency(id, l2).len()
                >= 1 by {
                assert(self.nodes@[node_pos as int].layers@[l2]@.len() >= 1);
            }
            assert forall|l2: int| lstart_g < l2 <= level as int implies self.adjacency(
                id,
                l2,
            ).len() == 0 by {
                assert(self.nodes@[node_pos as int].layers@[l2]@.len() == 0);
            }
            assert forall|t: int, l2: int|
                #![trigger pre.nodes@[t].layers@[l2]]
                0 <= t < pre.nodes@.len() && 0 <= l2 < pre.nodes@[t].layers@.len() implies
                self.nodes@[t].layers@[l2]@ == pre.nodes@[t].layers@[l2]@ || (l2
                <= pre.insertion_band(level) && link_step(
                *self,
                pre.nodes@[t].vector@,
                pre.nodes@[t].layers@[l2]@,
                self.nodes@[t].layers@[l2]@,
                id,
                pre.layer_cap(l2),
            )) by {
                if self.nodes@[t].layers@[l2]@ != pre.nodes@[t].layers@[l2]@ {
                    assert(l2 <= lstart_g);
                    assert(link_step(
                        pre2,
                        pre.nodes@[t].vector@,
                        pre.nodes@[t].layers@[l2]@,
                        self.nodes@[t].layers@[l2]@,
                        id,
                        pre.layer_cap(l2),
                    ));
                    assert forall|k: int|
                        0 <= k < pre.nodes@[t].layers@[l2]@.len() implies pre2.contains_id(
                        #[trigger] pre.nodes@[t].layers@[l2]@[k],
                    ) by {
                        assert(pre.node_wf(t));
                        assert(pre.edge_ok(
                            pre.nodes@[t].id,
                            pre.nodes@[t].layers@[l2]@[k],
                            l2,
                        ));
                        assert(pre.contains_id(pre.nodes@[t].layers@[l2]@[k]));
                    }
                    lemma_link_step_transfer(
                        pre2,
                        *self,
                        pre.nodes@[t].vector@,
                        pre.nodes@[t].layers@[l2]@,
                        self.nodes@[t].layers@[l2]@,
                        id,
                        pre.layer_cap(l2),
                    );
                }
            }
        }
    }
}

impl Hnsw {
    /// Approximate K-nearest-neighbour query: greedy descent to layer 1,
    /// then a beam search on layer 0, returning at most `k` pairs in
    /// ascending distance order.
    #[verifier::loop_isolation(false)]
    pub fn search(&self, query: &Vec<i64>, k: usize) -> (r: Vec<(u32, u128)>)
        requires
            self.wf(),
            coords_ok(query@),
            self.nodes@.len() > 0 ==> query@.len() == self.spec_dim(),
        ensures
            r@.len() <= k,
            sorted_by_dist(r@),
            pair_ids_distinct(r@),
            forall|i: int|
                0 <= i < r@.len() ==> self.contains_id((#[trigger] r@[i]).0) && r@[i].1
                    == spec_dist_sq(query@, self.vector_of(r@[i].0)),
            self.nodes@.len() == 0 ==> r@.len() == 0,
            self.nodes@.len() > 0 && k >= 1 ==> r@.len() >= 1,
            self.nodes@.len() == 1 && k >= 1 ==> r@.len() == 1 && r@[0].0
                == self.nodes@[0].id,
    {
        let ep0 = if let Some(e) = self.entry_point {
            e
        } else {
            let empty: Vec<(u32, u128)> = Vec::new();
            return empty;
        };
        let mut curr = ep0;
        let mut l: usize = self.max_layers;
        while l > 0
            invariant
                self.contains_id(curr),
                (l as int) < self.node_of(curr).layers@.len(),
            decreases l,
        {
            curr = self.greedy_closest(query, curr, l);
            l = l - 1;
        }
        let ef = if self.ef_construction > k {
            self.ef_construction
        } else {
            k
        };
        let mut out = self.search_layer(query, curr, ef, 0);
        let ghost full = out@;
        out.truncate(k);
        proof {
            if k < full.len() {
                assert(out@ == full.subrange(0, k as int));
            }
            if self.nodes@.len() == 1 && k >= 1 {
                assert(out@.len() >= 1);
                assert forall|i: int| 0 <= i < out@.len() implies (#[trigger] out@[i]).0
                    == self.nodes@[0].id by {
                    assert(self.contains_id(out@[i].0));
                    let w = choose|w: int|
                        0 <= w < self.nodes@.len() && (#[trigger] self.nodes@[w]).id == out@[i].0;
                }
                if out@.len() > 1 {
                    assert(out@[0].0 != out@[1].0);
                    assert(false);
                }
            }
        }
        out
    }
}

/// The capacity law: in a well-formed index, every adjacency list of
/// every node respects its layer's bound, `2 * m` on layer 0 and `m`
/// above.
pub proof fn lemma_adjacency_capped(h: Hnsw, id: u32, l: int)
    requires
        h.wf(),
        h.contains_id(id),
        0 <= l < h.node_of(id).layers@.len(),
    ensures
        h.adjacency(id, l).len() <= if l == 0 {
            2 * h.m
        } else {
            h.m as int
        },
{
    assert(h.node_wf(h.idx_of(id)));
}

/// The reference law: every id in any adjacency list names another
/// node that exists and participates in that layer.
pub proof fn lemma_adjacency_entries_valid(h: Hnsw, id: u32, l: int, k: int)
    requires
        h.wf(),
        h.contains_id(id),
        0 <= l < h.node_of(id).layers@.len(),
        0 <= k < h.adjacency(id, l).len(),
    ensures
        h.contains_id(h.adjacency(id, l)[k]),
        h.adjacency(id, l)[k] != id,
        l <= h.top_layer_of(h.adjacency(id, l)[k]),
{
    assert(h.node_wf(h.idx_of(id)));
    assert(h.edge_ok(h.node_of(id).id, h.adjacency(id, l)[k], l));
}

/// The entry-point law: the entry point is set iff the index is
/// non-empty, it sits at layer `max_layers`, and no node participates
/// in a higher layer. In a one-node index it is that node.
pub proof fn lemma_entry_point_invariant(h: Hnsw)
    requires
        h.wf(),
    ensures
        h.entry_point is Some <==> h.nodes@.len() > 0,
        h.entry_point matches Some(ep) ==> h.contains_id(ep) && h.top_layer_of(ep)
            == h.max_layers,
        forall|x: u32|
            #[trigger] h.contains_id(x) ==> h.top_layer_of(x) <= h.max_layers as int,
        h.nodes@.len() == 1 ==> (h.entry_point matches Some(ep) && ep == h.nodes@[0].id),
{
    assert forall|x: u32| #[trigger] h.contains_id(x) implies h.top_layer_of(x)
        <= h.max_layers as int by {
        assert(h.node_wf(h.idx_of(x)));
    }
    match h.entry_point {
        Some(ep) => {
            let w = h.idx_of(ep);
            assert(0 <= w < h.nodes@.len() && h.nodes@[w].id == ep);
        },
        None => {},
    }
}

/// Elements of `s.insert(p, x)` are `x` or elements of `s`.
proof fn lemma_insert_elems<T>(s: Seq<T>, p: int, x: T)
    requires
        0 <= p <= s.len(),
    ensures
        forall|i: int|
            0 <= i < s.insert(p, x).len() ==> s.insert(p, x)[i] == x || s.contains(
                #[trigger] s.insert(p, x)[i],
            ),
{
    assert forall|i: int| 0 <= i < s.insert(p, x).len() implies s.insert(p, x)[i] == x
        || s.contains(#[trigger] s.insert(p, x)[i]) by {
        if i < p {
            assert(s.insert(p, x)[i] == s[i]);
        } else if i > p {
            assert(s.insert(p, x)[i] == s[i - 1]);
        }
    }
}

} // verus!
