//! The snapshot codec: a complete binary image of the index.
//!
//! Layout, all little-endian: `m (8B) ++ ef_construction (8B) ++
//! max_layers (8B) ++ entry flag (1B) ++ entry id (4B) ++ node count
//! (8B) ++ nodes`, where each node is `id (4B) ++ coordinate count
//! (8B) ++ coordinates (8B each) ++ layer count (8B) ++ layers`, and a
//! layer is `id count (8B) ++ ids (4B each)`. Loading validates the
//! whole structural invariant, so only a well-formed index comes back.

use vstd::prelude::*;
use vstd::bytes::*;
use crate::distance::{coord_ok, coords_ok};
use crate::hnsw::{Hnsw, Node};

verus! {

/// The abstract content of a snapshot: parameters, entry point, and
/// for every node its id, coordinates and per-layer adjacency.
pub type SnapModel = (u64, u64, u64, Option<u32>, Seq<(u32, Seq<i64>, Seq<Seq<u32>>)>);

/// Why loading failed: the bytes do not parse, or they parse to a
/// structure that breaks the index invariant.
#[derive(Clone, Copy, PartialEq, Eq, Structural, Debug)]
pub enum SnapError {
    Malformed,
    Invalid,
}

pub open spec fn layers_model(ls: Seq<Vec<u32>>) -> Seq<Seq<u32>> {
    ls.map_values(|l: Vec<u32>| l@)
}

pub open spec fn nodes_model(s: Seq<Node>) -> Seq<(u32, Seq<i64>, Seq<Seq<u32>>)> {
    s.map_values(|n: Node| (n.id, n.vector@, layers_model(n.layers@)))
}

/// The model of an index: everything the snapshot must carry.
pub open spec fn spec_model(h: Hnsw) -> SnapModel {
    (
        h.m as u64,
        h.ef_construction as u64,
        h.max_layers as u64,
        h.entry_point,
        nodes_model(h.nodes@),
    )
}

pub open spec fn se_ids(s: Seq<u32>) -> Seq<u8>
    decreases s.len(),
{
    if s.len() == 0 {
        Seq::empty()
    } else {
        spec_u32_to_le_bytes(s[0]) + se_ids(s.drop_first())
    }
}

pub open spec fn se_coords(s: Seq<i64>) -> Seq<u8>
    decreases s.len(),
{
    if s.len() == 0 {
        Seq::empty()
    } else {
        spec_u64_to_le_bytes(s[0] as u64) + se_coords(s.drop_first())
    }
}

pub open spec fn se_layers(ls: Seq<Seq<u32>>) -> Seq<u8>
    decreases ls.len(),
{
    if ls.len() == 0 {
        Seq::empty()
    } else {
        spec_u64_to_le_bytes(ls[0].len() as u64) + se_ids(ls[0]) + se_layers(ls.drop_first())
    }
}

pub open spec fn se_node(n: (u32, Seq<i64>, Seq<Seq<u32>>)) -> Seq<u8> {
    spec_u32_to_le_bytes(n.0) + spec_u64_to_le_bytes(n.1.len() as u64) + se_coords(n.1)
        + spec_u64_to_le_bytes(n.2.len() as u64) + se_layers(n.2)
}

pub open spec fn se_nodes(ns: Seq<(u32, Seq<i64>, Seq<Seq<u32>>)>) -> Seq<u8>
    decreases ns.len(),
{
    if ns.len() == 0 {
        Seq::empty()
    } else {
        se_node(ns[0]) + se_nodes(ns.drop_first())
    }
}

/// The byte image of a snapshot model.
pub open spec fn spec_save(mdl: SnapModel) -> Seq<u8> {
    let flag: u8 = if mdl.3 is Some {
        1
    } else {
        0
    };
    let eid: u32 = match mdl.3 {
        Some(e) => e,
        None => 0,
    };
    spec_u64_to_le_bytes(mdl.0) + spec_u64_to_le_bytes(mdl.1) + spec_u64_to_le_bytes(mdl.2)
        + seq![flag] + spec_u32_to_le_bytes(eid) + spec_u64_to_le_bytes(mdl.4.len() as u64)
        + se_nodes(mdl.4)
}

pub open spec fn sp_ids(b: Seq<u8>, n: int) -> Option<(Seq<u32>, int)>
    decreases n,
{
    if n <= 0 {
        Some((Seq::empty(), 0))
    } else if b.len() < 4 {
        None
    } else {
        let x = spec_u32_from_le_bytes(b.subrange(0, 4));
        match sp_ids(b.skip(4), n - 1) {
            None => None,
            Some((rest, c)) => Some((seq![x] + rest, 4 + c)),
        }
    }
}

pub open spec fn sp_coords(b: Seq<u8>, n: int) -> Option<(Seq<i64>, int)>
    decreases n,
{
    if n <= 0 {
        Some((Seq::empty(), 0))
    } else if b.len() < 8 {
        None
    } else {
        let x = spec_u64_from_le_bytes(b.subrange(0, 8)) as i64;
        match sp_coords(b.skip(8), n - 1) {
            None => None,
            Some((rest, c)) => Some((seq![x] + rest, 8 + c)),
        }
    }
}

pub open spec fn sp_layers(b: Seq<u8>, n: int) -> Option<(Seq<Seq<u32>>, int)>
    decreases n,
{
    if n <= 0 {
        Some((Seq::empty(), 0))
    } else if b.len() < 8 {
        None
    } else {
        let k = spec_u64_from_le_bytes(b.subrange(0, 8)) as int;
        match sp_ids(b.skip(8), k) {
            None => None,
            Some((ids, c1)) => match sp_layers(b.skip(8 + c1), n - 1) {
                None => None,
                Some((rest, c2)) => Some((seq![ids] + rest, 8 + c1 + c2)),
            },
        }
    }
}

pub open spec fn sp_nodes(b: Seq<u8>, n: int) -> Option<(Seq<(u32, Seq<i64>, Seq<Seq<u32>>)>, int)>
    decreases n,
{
    if n <= 0 {
        Some((Seq::empty(), 0))
    } else if b.len() < 12 {
        None
    } else {
        let id = spec_u32_from_le_bytes(b.subrange(0, 4));
        let vn = spec_u64_from_le_bytes(b.subrange(4, 12)) as int;
        match sp_coords(b.skip(12), vn) {
            None => None,
            Some((v, c1)) => {
                if b.len() < 20 + c1 {
                    None
                } else {
                    let ln = spec_u64_from_le_bytes(b.subrange(12 + c1, 20 + c1)) as int;
                    match sp_layers(b.skip(20 + c1), ln) {
                        None => None,
                        Some((ls, c2)) => match sp_nodes(b.skip(20 + c1 + c2), n - 1) {
                            None => None,
                            Some((rest, c3)) => Some(
                                (seq![(id, v, ls)] + rest, 20 + c1 + c2 + c3),
                            ),
                        },
                    }
                }
            },
        }
    }
}

/// What a snapshot byte stream describes, if anything. Trailing bytes
/// make the whole stream malformed.
pub open spec fn spec_load(b: Seq<u8>) -> Option<SnapModel> {
    if b.len() < 37 {
        None
    } else {
        let m = spec_u64_from_le_bytes(b.subrange(0, 8));
        let ef = spec_u64_from_le_bytes(b.subrange(8, 16));
        let maxl = spec_u64_from_le_bytes(b.subrange(16, 24));
        let flag = b[24];
        let eid = spec_u32_from_le_bytes(b.subrange(25, 29));
        let count = spec_u64_from_le_bytes(b.subrange(29, 37)) as int;
        if flag != 0 && flag != 1 {
            None
        } else if flag == 0 && eid != 0 {
            None
        } else {
            let entry: Option<u32> = if flag == 1 {
                Some(eid)
            } else {
                None
            };
            match sp_nodes(b.skip(37), count) {
                None => None,
                Some((ns, c)) => {
                    if 37 + c == b.len() {
                        Some((m, ef, maxl, entry, ns))
                    } else {
                        None
                    }
                },
            }
        }
    }
}

proof fn lemma_se_ids_len(s: Seq<u32>)
    ensures
        se_ids(s).len() == 4 * s.len(),
    decreases s.len(),
{
    lemma_auto_spec_u32_to_from_le_bytes();
    if s.len() > 0 {
        lemma_se_ids_len(s.drop_first());
    }
}

proof fn lemma_se_coords_len(s: Seq<i64>)
    ensures
        se_coords(s).len() == 8 * s.len(),
    decreases s.len(),
{
    lemma_auto_spec_u64_to_from_le_bytes();
    if s.len() > 0 {
        lemma_se_coords_len(s.drop_first());
    }
}

proof fn lemma_sp_ids_rt(s: Seq<u32>, rest: Seq<u8>)
    ensures
        sp_ids(se_ids(s) + rest, s.len() as int) == Some((s, 4 * s.len() as int)),
    decreases s.len(),
{
    lemma_auto_spec_u32_to_from_le_bytes();
    let b = se_ids(s) + rest;
    if s.len() == 0 {
        assert(s =~= Seq::<u32>::empty());
    } else {
        lemma_se_ids_len(s);
        assert(b.subrange(0, 4) =~= spec_u32_to_le_bytes(s[0]));
        assert(b.skip(4) =~= se_ids(s.drop_first()) + rest);
        lemma_sp_ids_rt(s.drop_first(), rest);
        assert(seq![s[0]] + s.drop_first() =~= s);
    }
}

proof fn lemma_sp_coords_rt(s: Seq<i64>, rest: Seq<u8>)
    ensures
        sp_coords(se_coords(s) + rest, s.len() as int) == Some((s, 8 * s.len() as int)),
    decreases s.len(),
{
    lemma_auto_spec_u64_to_from_le_bytes();
    let b = se_coords(s) + rest;
    if s.len() == 0 {
        assert(s =~= Seq::<i64>::empty());
    } else {
        lemma_se_coords_len(s);
        assert(b.subrange(0, 8) =~= spec_u64_to_le_bytes(s[0] as u64));
        let x = s[0];
        assert((x as u64) as i64 == x) by (bit_vector);
        assert(b.skip(8) =~= se_coords(s.drop_first()) + rest);
        lemma_sp_coords_rt(s.drop_first(), rest);
        assert(seq![s[0]] + s.drop_first() =~= s);
    }
}

proof fn lemma_sp_layers_rt(ls: Seq<Seq<u32>>, rest: Seq<u8>)
    requires
        forall|i: int| 0 <= i < ls.len() ==> (#[trigger] ls[i]).len() <= 0xFFFF_FFFF_FFFF_FFFF,
    ensures
        sp_layers(se_layers(ls) + rest, ls.len() as int) == Some(
            (ls, se_layers(ls).len() as int),
        ),
    decreases ls.len(),
{
    lemma_auto_spec_u64_to_from_le_bytes();
    let b = se_layers(ls) + rest;
    if ls.len() == 0 {
        assert(ls =~= Seq::<Seq<u32>>::empty());
    } else {
        let l0 = ls[0];
        lemma_se_ids_len(l0);
        assert(b.subrange(0, 8) =~= spec_u64_to_le_bytes(l0.len() as u64));
        let k = spec_u64_from_le_bytes(b.subrange(0, 8)) as int;
        assert(k == l0.len());
        assert(b.skip(8) =~= se_ids(l0) + (se_layers(ls.drop_first()) + rest));
        lemma_sp_ids_rt(l0, se_layers(ls.drop_first()) + rest);
        let c1 = 4 * l0.len() as int;
        assert(b.skip(8 + c1) =~= se_layers(ls.drop_first()) + rest);
        assert(forall|i: int|
            0 <= i < ls.drop_first().len() ==> (#[trigger] ls.drop_first()[i]).len()
                <= 0xFFFF_FFFF_FFFF_FFFF);
        lemma_sp_layers_rt(ls.drop_first(), rest);
        assert(seq![l0] + ls.drop_first() =~= ls);
    }
}

proof fn lemma_sp_nodes_rt(ns: Seq<(u32, Seq<i64>, Seq<Seq<u32>>)>, rest: Seq<u8>)
    requires
        forall|i: int|
            0 <= i < ns.len() ==> (#[trigger] ns[i]).1.len() <= 0xFFFF_FFFF_FFFF_FFFF
                && ns[i].2.len() <= 0xFFFF_FFFF_FFFF_FFFF,
        forall|i: int, j: int|
            0 <= i < ns.len() && 0 <= j < ns[i].2.len() ==> (#[trigger] ns[i].2[j]).len()
                <= 0xFFFF_FFFF_FFFF_FFFF,
    ensures
        sp_nodes(se_nodes(ns) + rest, ns.len() as int) == Some((ns, se_nodes(ns).len() as int)),
    decreases ns.len(),
{
    lemma_auto_spec_u32_to_from_le_bytes();
    lemma_auto_spec_u64_to_from_le_bytes();
    let b = se_nodes(ns) + rest;
    if ns.len() == 0 {
        assert(ns =~= Seq::<(u32, Seq<i64>, Seq<Seq<u32>>)>::empty());
    } else {
        let n0 = ns[0];
        lemma_se_coords_len(n0.1);
        let body = se_node(n0);
        assert(b =~= body + (se_nodes(ns.drop_first()) + rest));
        assert(b.subrange(0, 4) =~= spec_u32_to_le_bytes(n0.0));
        assert(b.subrange(4, 12) =~= spec_u64_to_le_bytes(n0.1.len() as u64));
        let vn = spec_u64_from_le_bytes(b.subrange(4, 12)) as int;
        assert(vn == n0.1.len());
        let tail1 = spec_u64_to_le_bytes(n0.2.len() as u64) + se_layers(n0.2) + (se_nodes(
            ns.drop_first(),
        ) + rest);
        assert(b.skip(12) =~= se_coords(n0.1) + tail1);
        lemma_sp_coords_rt(n0.1, tail1);
        let c1 = 8 * n0.1.len() as int;
        assert(b.len() >= 20 + c1);
        assert(b.subrange(12 + c1, 20 + c1) =~= spec_u64_to_le_bytes(n0.2.len() as u64));
        let ln = spec_u64_from_le_bytes(b.subrange(12 + c1, 20 + c1)) as int;
        assert(ln == n0.2.len());
        assert(b.skip(20 + c1) =~= se_layers(n0.2) + (se_nodes(ns.drop_first()) + rest));
        assert(forall|j: int|
            0 <= j < n0.2.len() ==> (#[trigger] n0.2[j]).len() <= 0xFFFF_FFFF_FFFF_FFFF);
        lemma_sp_layers_rt(n0.2, se_nodes(ns.drop_first()) + rest);
        let c2 = se_layers(n0.2).len() as int;
        assert(b.skip(20 + c1 + c2) =~= se_nodes(ns.drop_first()) + rest);
        assert(forall|i: int|
            0 <= i < ns.drop_first().len() ==> (#[trigger] ns.drop_first()[i]).1.len()
                <= 0xFFFF_FFFF_FFFF_FFFF && ns.drop_first()[i].2.len() <= 0xFFFF_FFFF_FFFF_FFFF);
        assert forall|i: int, j: int|
            0 <= i < ns.drop_first().len() && 0 <= j < ns.drop_first()[i].2.len() implies (
        #[trigger] ns.drop_first()[i].2[j]).len() <= 0xFFFF_FFFF_FFFF_FFFF by {
            assert(ns.drop_first()[i] == ns[i + 1]);
        }
        lemma_sp_nodes_rt(ns.drop_first(), rest);
        assert(seq![n0] + ns.drop_first() =~= ns);
        assert(body.len() == 20 + c1 + c2);
        assert(se_nodes(ns).len() == body.len() + se_nodes(ns.drop_first()).len());
    }
}

/// The snapshot codec round-trips: the byte image of a model loads
/// back to exactly that model.
pub proof fn lemma_save_load(mdl: SnapModel)
    requires
        mdl.4.len() <= 0xFFFF_FFFF_FFFF_FFFF,
        forall|i: int|
            0 <= i < mdl.4.len() ==> (#[trigger] mdl.4[i]).1.len() <= 0xFFFF_FFFF_FFFF_FFFF
                && mdl.4[i].2.len() <= 0xFFFF_FFFF_FFFF_FFFF,
        forall|i: int, j: int|
            0 <= i < mdl.4.len() && 0 <= j < mdl.4[i].2.len() ==> (#[trigger] mdl.4[i].2[j]).len()
                <= 0xFFFF_FFFF_FFFF_FFFF,
    ensures
        spec_load(spec_save(mdl)) == Some(mdl),
{
    lemma_auto_spec_u32_to_from_le_bytes();
    lemma_auto_spec_u64_to_from_le_bytes();
    let b = spec_save(mdl);
    let flag: u8 = if mdl.3 is Some {
        1
    } else {
        0
    };
    let eid: u32 = match mdl.3 {
        Some(e) => e,
        None => 0,
    };
    assert(b.len() >= 37);
    assert(b.subrange(0, 8) =~= spec_u64_to_le_bytes(mdl.0));
    assert(b.subrange(8, 16) =~= spec_u64_to_le_bytes(mdl.1));
    assert(b.subrange(16, 24) =~= spec_u64_to_le_bytes(mdl.2));
    assert(b[24] == flag);
    assert(b.subrange(25, 29) =~= spec_u32_to_le_bytes(eid));
    assert(b.subrange(29, 37) =~= spec_u64_to_le_bytes(mdl.4.len() as u64));
    assert(b.skip(37) =~= se_nodes(mdl.4) + Seq::<u8>::empty());
    lemma_sp_nodes_rt(mdl.4, Seq::<u8>::empty());
    assert(se_nodes(mdl.4) + Seq::<u8>::empty() =~= se_nodes(mdl.4));
    assert(37 + se_nodes(mdl.4).len() == b.len());
}

proof fn lemma_se_ids_push(s: Seq<u32>, x: u32)
    ensures
        se_ids(s.push(x)) == se_ids(s) + spec_u32_to_le_bytes(x),
    decreases s.len(),
{
    if s.len() == 0 {
        assert(s.push(x)[0] == x);
        assert(s.push(x).drop_first() =~= Seq::<u32>::empty());
        assert(se_ids(Seq::<u32>::empty()) == Seq::<u8>::empty());
        assert(se_ids(s.push(x)) =~= se_ids(s) + spec_u32_to_le_bytes(x));
    } else {
        assert(s.push(x)[0] == s[0]);
        assert(s.push(x).drop_first() =~= s.drop_first().push(x));
        lemma_se_ids_push(s.drop_first(), x);
        assert(se_ids(s.push(x)) =~= se_ids(s) + spec_u32_to_le_bytes(x));
    }
}

proof fn lemma_se_coords_push(s: Seq<i64>, x: i64)
    ensures
        se_coords(s.push(x)) == se_coords(s) + spec_u64_to_le_bytes(x as u64),
    decreases s.len(),
{
    if s.len() == 0 {
        assert(s.push(x)[0] == x);
        assert(s.push(x).drop_first() =~= Seq::<i64>::empty());
        assert(se_coords(Seq::<i64>::empty()) == Seq::<u8>::empty());
        assert(se_coords(s.push(x)) =~= se_coords(s) + spec_u64_to_le_bytes(x as u64));
    } else {
        assert(s.push(x)[0] == s[0]);
        assert(s.push(x).drop_first() =~= s.drop_first().push(x));
        lemma_se_coords_push(s.drop_first(), x);
        assert(se_coords(s.push(x)) =~= se_coords(s) + spec_u64_to_le_bytes(x as u64));
    }
}

proof fn lemma_se_layers_push(ls: Seq<Seq<u32>>, l: Seq<u32>)
    ensures
        se_layers(ls.push(l)) == se_layers(ls) + spec_u64_to_le_bytes(l.len() as u64) + se_ids(l),
    decreases ls.len(),
{
    if ls.len() == 0 {
        assert(ls.push(l)[0] == l);
        assert(ls.push(l).drop_first() =~= Seq::<Seq<u32>>::empty());
        assert(se_layers(Seq::<Seq<u32>>::empty()) == Seq::<u8>::empty());
        assert(se_layers(ls.push(l)) =~= se_layers(ls) + spec_u64_to_le_bytes(l.len() as u64)
            + se_ids(l));
    } else {
        assert(ls.push(l)[0] == ls[0]);
        assert(ls.push(l).drop_first() =~= ls.drop_first().push(l));
        lemma_se_layers_push(ls.drop_first(), l);
        assert(se_layers(ls.push(l)) =~= se_layers(ls) + spec_u64_to_le_bytes(l.len() as u64)
            + se_ids(l));
    }
}

proof fn lemma_se_nodes_push(ns: Seq<(u32, Seq<i64>, Seq<Seq<u32>>)>, n: (u32, Seq<i64>, Seq<Seq<u32>>))
    ensures
        se_nodes(ns.push(n)) == se_nodes(ns) + se_node(n),
    decreases ns.len(),
{
    if ns.len() == 0 {
        assert(ns.push(n)[0] == n);
        assert(ns.push(n).drop_first() =~= Seq::<(u32, Seq<i64>, Seq<Seq<u32>>)>::empty());
        assert(se_nodes(Seq::<(u32, Seq<i64>, Seq<Seq<u32>>)>::empty()) == Seq::<u8>::empty());
        assert(se_nodes(ns.push(n)) =~= se_nodes(ns) + se_node(n));
    } else {
        assert(ns.push(n)[0] == ns[0]);
        assert(ns.push(n).drop_first() =~= ns.drop_first().push(n));
        lemma_se_nodes_push(ns.drop_first(), n);
        assert(se_nodes(ns.push(n)) =~= se_nodes(ns) + se_node(n));
    }
}

impl Hnsw {
    /// Serialize the whole index to its snapshot byte image.
    #[verifier::loop_isolation(false)]
    #[verifier::rlimit(100)]
    pub fn save_snapshot_bytes(&self) -> (r: Vec<u8>)
        ensures
            r@ == spec_save(spec_model(*self)),
    {
        proof {
            lemma_auto_spec_u32_to_from_le_bytes();
            lemma_auto_spec_u64_to_from_le_bytes();
        }
        let mut r = u64_to_le_bytes(self.m as u64);
        let mut b2 = u64_to_le_bytes(self.ef_construction as u64);
        r.append(&mut b2);
        let mut b3 = u64_to_le_bytes(self.max_layers as u64);
        r.append(&mut b3);
        let (flag, eid): (u8, u32) = match self.entry_point {
            Some(e) => (1, e),
            None => (0, 0),
        };
        r.push(flag);
        let mut b4 = u32_to_le_bytes(eid);
        r.append(&mut b4);
        let mut b5 = u64_to_le_bytes(self.nodes.len() as u64);
        r.append(&mut b5);
        let ghost header = r@;
        let ghost model = nodes_model(self.nodes@);
        let n = self.nodes.len();
        let mut i: usize = 0;
        while i < n
            invariant
                i <= n,
                r@ == header + se_nodes(model.take(i as int)),
            decreases n - i,
        {
            let ghost r0 = r@;
            let node = &self.nodes[i];
            let mut nb = u32_to_le_bytes(node.id);
            r.append(&mut nb);
            let mut vl = u64_to_le_bytes(node.vector.len() as u64);
            r.append(&mut vl);
            let vn = node.vector.len();
            let mut k: usize = 0;
            while k < vn
                invariant
                    k <= vn,
                    vn == self.nodes@[i as int].vector@.len(),
                    i < n,
                    r@ == r0 + spec_u32_to_le_bytes(self.nodes@[i as int].id)
                        + spec_u64_to_le_bytes(vn as u64) + se_coords(
                        self.nodes@[i as int].vector@.take(k as int),
                    ),
                decreases vn - k,
            {
                let mut cb = u64_to_le_bytes(self.nodes[i].vector[k] as u64);
                r.append(&mut cb);
                proof {
                    let v = self.nodes@[i as int].vector@;
                    assert(v.take(k + 1) =~= v.take(k as int).push(v[k as int]));
                    lemma_se_coords_push(v.take(k as int), v[k as int]);
                }
                k = k + 1;
            }
            proof {
                let v = self.nodes@[i as int].vector@;
                assert(v.take(vn as int) =~= v);
            }
            let ghost r1 = r@;
            let ln = self.nodes[i].layers.len();
            let mut lb = u64_to_le_bytes(ln as u64);
            r.append(&mut lb);
            let mut j: usize = 0;
            while j < ln
                invariant
                    j <= ln,
                    ln == self.nodes@[i as int].layers@.len(),
                    i < n,
                    r@ == r1 + spec_u64_to_le_bytes(ln as u64) + se_layers(
                        layers_model(self.nodes@[i as int].layers@).take(j as int),
                    ),
                decreases ln - j,
            {
                let ghost r2 = r@;
                let lst_len = self.nodes[i].layers[j].len();
                let mut llb = u64_to_le_bytes(lst_len as u64);
                r.append(&mut llb);
                let mut k2: usize = 0;
                while k2 < lst_len
                    invariant
                        k2 <= lst_len,
                        i < n,
                        j < ln,
                        ln == self.nodes@[i as int].layers@.len(),
                        lst_len == self.nodes@[i as int].layers@[j as int]@.len(),
                        r@ == r2 + spec_u64_to_le_bytes(lst_len as u64) + se_ids(
                            self.nodes@[i as int].layers@[j as int]@.take(k2 as int),
                        ),
                    decreases lst_len - k2,
                {
                    let mut ib = u32_to_le_bytes(self.nodes[i].layers[j][k2]);
                    r.append(&mut ib);
                    proof {
                        let l = self.nodes@[i as int].layers@[j as int]@;
                        assert(l.take(k2 + 1) =~= l.take(k2 as int).push(l[k2 as int]));
                        lemma_se_ids_push(l.take(k2 as int), l[k2 as int]);
                    }
                    k2 = k2 + 1;
                }
                proof {
                    let lm = layers_model(self.nodes@[i as int].layers@);
                    let l = self.nodes@[i as int].layers@[j as int]@;
                    assert(l.take(lst_len as int) =~= l);
                    assert(lm.take(j + 1) =~= lm.take(j as int).push(lm[j as int]));
                    assert(lm[j as int] == l);
                    lemma_se_layers_push(lm.take(j as int), l);
                    assert(r@ == r1 + spec_u64_to_le_bytes(ln as u64) + se_layers(
                        lm.take(j + 1),
                    ));
                }
                j = j + 1;
            }
            proof {
                let lm = layers_model(self.nodes@[i as int].layers@);
                assert(lm.take(ln as int) =~= lm);
                assert(model.take(i + 1) =~= model.take(i as int).push(model[i as int]));
                lemma_se_nodes_push(model.take(i as int), model[i as int]);
                assert(r@ == header + se_nodes(model.take(i + 1)));
            }
            i = i + 1;
        }
        proof {
            assert(model.take(n as int) =~= model);
        }
        r
    }
}

fn read_u32_at(b: &Vec<u8>, pos: usize) -> (r: u32)
    requires
        pos + 4 <= b@.len(),
    ensures
        r == spec_u32_from_le_bytes(b@.subrange(pos as int, pos as int + 4)),
{
    let bytes = crate::wal::copy_range(b, pos, 4);
    u32_from_le_bytes(bytes.as_slice())
}

fn read_u64_at(b: &Vec<u8>, pos: usize) -> (r: u64)
    requires
        pos + 8 <= b@.len(),
    ensures
        r == spec_u64_from_le_bytes(b@.subrange(pos as int, pos as int + 8)),
{
    let bytes = crate::wal::copy_range(b, pos, 8);
    u64_from_le_bytes(bytes.as_slice())
}

#[verifier::loop_isolation(false)]
fn parse_ids(b: &Vec<u8>, pos: usize, n: u64) -> (r: Option<(Vec<u32>, usize)>)
    requires
        pos <= b@.len(),
    ensures
        match r {
            Some(p) => sp_ids(b@.skip(pos as int), n as int) == Some((p.0@, p.1 as int)) && pos
                + p.1 <= b@.len(),
            None => sp_ids(b@.skip(pos as int), n as int) is None,
        },
{
    let mut res: Vec<u32> = Vec::new();
    let mut p: usize = pos;
    let mut i: u64 = 0;
    while i < n
        invariant
            i <= n,
            pos <= p <= b@.len(),
            sp_ids(b@.skip(pos as int), n as int) == (match sp_ids(
                b@.skip(p as int),
                n as int - i as int,
            ) {
                None => None::<(Seq<u32>, int)>,
                Some(t) => Some((res@ + t.0, (p - pos) + t.1)),
            }),
        decreases n - i,
    {
        if b.len() - p < 4 {
            proof {
                assert(b@.skip(p as int).len() < 4);
            }
            return None;
        }
        let x = read_u32_at(b, p);
        let ghost res0 = res@;
        proof {
            assert(b@.skip(p as int).subrange(0, 4) =~= b@.subrange(p as int, p as int + 4));
            assert(b@.skip(p as int).skip(4) =~= b@.skip(p as int + 4));
            assert forall|q: Seq<u32>| res0 + (seq![x] + q) =~= res0.push(x) + q by {}
        }
        res.push(x);
        p = p + 4;
        i = i + 1;
    }
    proof {
        assert(res@ + Seq::<u32>::empty() =~= res@);
    }
    Some((res, p - pos))
}

#[verifier::loop_isolation(false)]
fn parse_coords(b: &Vec<u8>, pos: usize, n: u64) -> (r: Option<(Vec<i64>, usize)>)
    requires
        pos <= b@.len(),
    ensures
        match r {
            Some(p) => sp_coords(b@.skip(pos as int), n as int) == Some((p.0@, p.1 as int)) && pos
                + p.1 <= b@.len(),
            None => sp_coords(b@.skip(pos as int), n as int) is None,
        },
{
    let mut res: Vec<i64> = Vec::new();
    let mut p: usize = pos;
    let mut i: u64 = 0;
    while i < n
        invariant
            i <= n,
            pos <= p <= b@.len(),
            sp_coords(b@.skip(pos as int), n as int) == (match sp_coords(
                b@.skip(p as int),
                n as int - i as int,
            ) {
                None => None::<(Seq<i64>, int)>,
                Some(t) => Some((res@ + t.0, (p - pos) + t.1)),
            }),
        decreases n - i,
    {
        if b.len() - p < 8 {
            proof {
                assert(b@.skip(p as int).len() < 8);
            }
            return None;
        }
        let x64 = read_u64_at(b, p);
        let x = x64 as i64;
        let ghost res0 = res@;
        proof {
            assert(b@.skip(p as int).subrange(0, 8) =~= b@.subrange(p as int, p as int + 8));
            assert(b@.skip(p as int).skip(8) =~= b@.skip(p as int + 8));
            assert forall|q: Seq<i64>| res0 + (seq![x] + q) =~= res0.push(x) + q by {}
        }
        res.push(x);
        p = p + 8;
        i = i + 1;
    }
    proof {
        assert(res@ + Seq::<i64>::empty() =~= res@);
    }
    Some((res, p - pos))
}

#[verifier::loop_isolation(false)]
fn parse_layers(b: &Vec<u8>, pos: usize, n: u64) -> (r: Option<(Vec<Vec<u32>>, usize)>)
    requires
        pos <= b@.len(),
    ensures
        match r {
            Some(p) => sp_layers(b@.skip(pos as int), n as int) == Some(
                (layers_model(p.0@), p.1 as int),
            ) && pos + p.1 <= b@.len(),
            None => sp_layers(b@.skip(pos as int), n as int) is None,
        },
{
    let mut res: Vec<Vec<u32>> = Vec::new();
    let mut p: usize = pos;
    let mut i: u64 = 0;
    while i < n
        invariant
            i <= n,
            pos <= p <= b@.len(),
            sp_layers(b@.skip(pos as int), n as int) == (match sp_layers(
                b@.skip(p as int),
                n as int - i as int,
            ) {
                None => None::<(Seq<Seq<u32>>, int)>,
                Some(t) => Some((layers_model(res@) + t.0, (p - pos) + t.1)),
            }),
        decreases n - i,
    {
        if b.len() - p < 8 {
            proof {
                assert(b@.skip(p as int).len() < 8);
            }
            return None;
        }
        let k = read_u64_at(b, p);
        proof {
            assert(b@.skip(p as int).subrange(0, 8) =~= b@.subrange(p as int, p as int + 8));
            assert(b@.skip(p as int).skip(8) =~= b@.skip(p as int + 8));
        }
        let ids = match parse_ids(b, p + 8, k) {
            None => {
                return None;
            },
            Some(x) => x,
        };
        let (lst, c1) = ids;
        let ghost res0 = res@;
        let ghost lm = lst@;
        proof {
            assert(b@.skip(p as int + 8).skip(c1 as int) =~= b@.skip(p as int + 8 + c1 as int));
            assert(b@.skip(p as int).skip(8 + c1 as int) =~= b@.skip(p as int + 8 + c1 as int));
            assert forall|q: Seq<Seq<u32>>| layers_model(res0) + (seq![lm] + q) =~= layers_model(
                res0.push(lst),
            ) + q by {
                assert(layers_model(res0.push(lst)) =~= layers_model(res0).push(lm));
            }
        }
        res.push(lst);
        p = p + 8 + c1;
        i = i + 1;
    }
    proof {
        assert(layers_model(res@) + Seq::<Seq<u32>>::empty() =~= layers_model(res@));
    }
    Some((res, p - pos))
}

#[verifier::loop_isolation(false)]
#[verifier::rlimit(100)]
fn parse_nodes(b: &Vec<u8>, pos: usize, n: u64) -> (r: Option<(Vec<Node>, usize)>)
    requires
        pos <= b@.len(),
    ensures
        match r {
            Some(p) => sp_nodes(b@.skip(pos as int), n as int) == Some(
                (nodes_model(p.0@), p.1 as int),
            ) && pos + p.1 <= b@.len(),
            None => sp_nodes(b@.skip(pos as int), n as int) is None,
        },
{
    let mut res: Vec<Node> = Vec::new();
    let mut p: usize = pos;
    let mut i: u64 = 0;
    while i < n
        invariant
            i <= n,
            pos <= p <= b@.len(),
            sp_nodes(b@.skip(pos as int), n as int) == (match sp_nodes(
                b@.skip(p as int),
                n as int - i as int,
            ) {
                None => None::<(Seq<(u32, Seq<i64>, Seq<Seq<u32>>)>, int)>,
                Some(t) => Some((nodes_model(res@) + t.0, (p - pos) + t.1)),
            }),
        decreases n - i,
    {
        if b.len() - p < 12 {
            proof {
                assert(b@.skip(p as int).len() < 12);
            }
            return None;
        }
        let id = read_u32_at(b, p);
        let vn = read_u64_at(b, p + 4);
        proof {
            assert(b@.skip(p as int).subrange(0, 4) =~= b@.subrange(p as int, p as int + 4));
            assert(b@.skip(p as int).subrange(4, 12) =~= b@.subrange(p as int + 4, p as int + 12));
            assert(b@.skip(p as int).skip(12) =~= b@.skip(p as int + 12));
        }
        let coords = match parse_coords(b, p + 12, vn) {
            None => {
                return None;
            },
            Some(x) => x,
        };
        let (v, c1) = coords;
        if b.len() - p < 20 || b.len() - p - 20 < c1 {
            proof {
                assert(b@.skip(p as int).len() < 20 + c1 as int);
            }
            return None;
        }
        let ln = read_u64_at(b, p + 12 + c1);
        proof {
            assert(b@.skip(p as int).subrange(12 + c1 as int, 20 + c1 as int) =~= b@.subrange(
                p as int + 12 + c1 as int,
                p as int + 20 + c1 as int,
            ));
            assert(b@.skip(p as int).skip(20 + c1 as int) =~= b@.skip(p as int + 20 + c1 as int));
        }
        let layers = match parse_layers(b, p + 20 + c1, ln) {
            None => {
                return None;
            },
            Some(x) => x,
        };
        let (ls, c2) = layers;
        let node = Node { id, vector: v, layers: ls };
        let ghost nm = (id, node.vector@, layers_model(node.layers@));
        let ghost res0 = res@;
        proof {
            assert(b@.skip(p as int + 20 + c1 as int).skip(c2 as int) =~= b@.skip(
                p as int + 20 + c1 as int + c2 as int,
            ));
            assert(b@.skip(p as int).skip(20 + c1 as int + c2 as int) =~= b@.skip(
                p as int + 20 + c1 as int + c2 as int,
            ));
            assert forall|q: Seq<(u32, Seq<i64>, Seq<Seq<u32>>)>|
                nodes_model(res0) + (seq![nm] + q) =~= nodes_model(res0.push(node)) + q by {
                assert(nodes_model(res0.push(node)) =~= nodes_model(res0).push(nm));
            }
        }
        res.push(node);
        p = p + 20 + c1 + c2;
        i = i + 1;
    }
    proof {
        assert(nodes_model(res@) + Seq::<(u32, Seq<i64>, Seq<Seq<u32>>)>::empty() =~= nodes_model(
            res@,
        ));
    }
    Some((res, p - pos))
}

/// Two index values with the same snapshot model and the derived
/// layer-0 cap are well-formed together.
proof fn lemma_wf_from_model(g: Hnsw, h: Hnsw)
    requires
        spec_model(g) == spec_model(h),
        h.m_max0 == h.m * 2,
        g.wf(),
    ensures
        h.wf(),
{
    assert(g.nodes@.len() == h.nodes@.len()) by {
        assert(nodes_model(g.nodes@).len() == nodes_model(h.nodes@).len());
    }
    assert(g.m as u64 == h.m as u64 && g.ef_construction as u64 == h.ef_construction as u64
        && g.max_layers as u64 == h.max_layers as u64) by {
        assert(spec_model(g).0 == spec_model(h).0);
        assert(spec_model(g).1 == spec_model(h).1);
        assert(spec_model(g).2 == spec_model(h).2);
    }
    assert(g.m == h.m && g.ef_construction == h.ef_construction && g.max_layers == h.max_layers)
        by {
        assert(g.m as int == g.m as u64 as int);
        assert(h.m as int == h.m as u64 as int);
        assert(g.ef_construction as int == g.ef_construction as u64 as int);
        assert(h.ef_construction as int == h.ef_construction as u64 as int);
        assert(g.max_layers as int == g.max_layers as u64 as int);
        assert(h.max_layers as int == h.max_layers as u64 as int);
    }
    assert(g.entry_point == h.entry_point) by {
        assert(spec_model(g).3 == spec_model(h).3);
    }
    assert forall|t: int|
        0 <= t < g.nodes@.len() implies (#[trigger] h.nodes@[t]).id == g.nodes@[t].id
        && h.nodes@[t].vector@ == g.nodes@[t].vector@ && h.nodes@[t].layers@.len()
        == g.nodes@[t].layers@.len() && layers_model(h.nodes@[t].layers@) == layers_model(
        g.nodes@[t].layers@,
    ) by {
        assert(nodes_model(h.nodes@)[t] == nodes_model(g.nodes@)[t]);
        assert(nodes_model(h.nodes@)[t] == (
            h.nodes@[t].id,
            h.nodes@[t].vector@,
            layers_model(h.nodes@[t].layers@),
        ));
        assert(nodes_model(g.nodes@)[t] == (
            g.nodes@[t].id,
            g.nodes@[t].vector@,
            layers_model(g.nodes@[t].layers@),
        ));
        assert(layers_model(h.nodes@[t].layers@).len() == layers_model(
            g.nodes@[t].layers@,
        ).len());
    }
    crate::hnsw::lemma_same_skeleton(g, h);
    assert forall|j: int| 0 <= j < h.nodes@.len() implies h.node_wf(j) by {
        assert(g.node_wf(j));
        let ng = g.nodes@[j];
        let nh = h.nodes@[j];
        assert forall|l: int, k: int|
            0 <= l < nh.layers@.len() && 0 <= k < nh.layers@[l]@.len() implies h.edge_ok(
            nh.id,
            #[trigger] nh.layers@[l]@[k],
            l,
        ) by {
            assert(layers_model(h.nodes@[j].layers@)[l] == layers_model(g.nodes@[j].layers@)[l]);
            assert(nh.layers@[l]@ == ng.layers@[l]@);
            let e = nh.layers@[l]@[k];
            assert(g.edge_ok(ng.id, e, l));
            assert(h.contains_id(e));
            assert(h.node_of(e).layers@.len() == g.node_of(e).layers@.len());
        }
        assert forall|l: int|
            0 <= l < nh.layers@.len() implies (#[trigger] nh.layers@[l])@.len() <= h.layer_cap(
            l,
        ) by {
            assert(layers_model(h.nodes@[j].layers@)[l] == layers_model(g.nodes@[j].layers@)[l]);
            assert(nh.layers@[l]@ == ng.layers@[l]@);
        }
    }
    match h.entry_point {
        None => {},
        Some(ep) => {
            assert(g.entry_point == Some(ep));
            assert(g.contains_id(ep));
            assert(h.node_of(ep).layers@.len() == g.node_of(ep).layers@.len());
        },
    }
}

/// Linear scan for a node id, with a definite answer either way.
fn find_id_opt(h: &Hnsw, id: u32) -> (r: Option<usize>)
    requires
        h.ids_distinct(),
    ensures
        match r {
            Some(w) => w < h.nodes@.len() && h.nodes@[w as int].id == id && h.contains_id(id) && (
            w as int) == h.idx_of(id),
            None => !h.contains_id(id),
        },
{
    let n = h.nodes.len();
    let mut j: usize = 0;
    while j < n
        invariant
            n == h.nodes@.len(),
            j <= n,
            h.ids_distinct(),
            forall|t: int| 0 <= t < j ==> (#[trigger] h.nodes@[t]).id != id,
        decreases n - j,
    {
        if h.nodes[j].id == id {
            proof {
                assert(h.contains_id(id));
                let w = h.idx_of(id);
                assert(0 <= w < h.nodes@.len() && h.nodes@[w].id == id);
            }
            return Some(j);
        }
        j = j + 1;
    }
    proof {
        if h.contains_id(id) {
            let w = h.idx_of(id);
            assert(0 <= w < h.nodes@.len() && h.nodes@[w].id == id);
        }
    }
    None
}

fn check_coords_vec(v: &Vec<i64>) -> (r: bool)
    ensures
        r == coords_ok(v@),
{
    let mut i: usize = 0;
    while i < v.len()
        invariant
            i <= v@.len(),
            forall|t: int| 0 <= t < i ==> coord_ok(#[trigger] v@[t]),
        decreases v@.len() - i,
    {
        let c = v[i];
        if c < -crate::distance::COORD_LIMIT || c > crate::distance::COORD_LIMIT {
            return false;
        }
        i = i + 1;
    }
    true
}

fn check_distinct(h: &Hnsw) -> (r: bool)
    ensures
        r == h.ids_distinct(),
{
    let n = h.nodes.len();
    let mut j: usize = 0;
    while j < n
        invariant
            n == h.nodes@.len(),
            j <= n,
            forall|a: int, b: int|
                0 <= a < b < n && a < j ==> (#[trigger] h.nodes@[a]).id != (
                #[trigger] h.nodes@[b]).id,
        decreases n - j,
    {
        let mut k: usize = j + 1;
        while k < n
            invariant
                n == h.nodes@.len(),
                j < k <= n || (j + 1 == k && k > n),
                j < n,
                forall|a: int, b: int|
                    0 <= a < b < n && a < j ==> (#[trigger] h.nodes@[a]).id != (
                    #[trigger] h.nodes@[b]).id,
                forall|b: int|
                    j < b < k ==> (#[trigger] h.nodes@[b]).id != h.nodes@[j as int].id,
            decreases n - k,
        {
            if h.nodes[k].id == h.nodes[j].id {
                return false;
            }
            k = k + 1;
        }
        j = j + 1;
    }
    true
}

fn check_vectors(h: &Hnsw) -> (r: bool)
    ensures
        r == h.vectors_ok(),
{
    let n = h.nodes.len();
    if n == 0 {
        return true;
    }
    let dim = h.nodes[0].vector.len();
    let mut j: usize = 0;
    while j < n
        invariant
            n == h.nodes@.len(),
            n > 0,
            dim as int == h.spec_dim(),
            j <= n,
            forall|t: int|
                0 <= t < j ==> (#[trigger] h.nodes@[t]).vector@.len() == h.spec_dim() && coords_ok(
                    h.nodes@[t].vector@,
                ),
        decreases n - j,
    {
        if h.nodes[j].vector.len() != dim {
            return false;
        }
        if !check_coords_vec(&h.nodes[j].vector) {
            return false;
        }
        j = j + 1;
    }
    true
}

#[verifier::loop_isolation(false)]
#[verifier::rlimit(100)]
fn check_nodes(h: &Hnsw) -> (r: bool)
    requires
        h.ids_distinct(),
    ensures
        r == (forall|j: int| 0 <= j < h.nodes@.len() ==> h.node_wf(j)),
{
    let n = h.nodes.len();
    let mut j: usize = 0;
    while j < n
        invariant
            j <= n,
            forall|t: int| 0 <= t < j ==> h.node_wf(t),
        decreases n - j,
    {
        let nl = h.nodes[j].layers.len();
        if nl < 1 || nl - 1 > h.max_layers {
            proof {
                assert(!h.node_wf(j as int));
            }
            return false;
        }
        let mut l: usize = 0;
        while l < nl
            invariant
                j < n,
                nl == h.nodes@[j as int].layers@.len(),
                1 <= nl <= h.max_layers + 1,
                l <= nl,
                forall|l2: int|
                    0 <= l2 < l ==> (#[trigger] h.nodes@[j as int].layers@[l2])@.len()
                        <= h.layer_cap(l2),
                forall|l2: int, k: int|
                    0 <= l2 < l && 0 <= k < h.nodes@[j as int].layers@[l2]@.len() ==> h.edge_ok(
                        h.nodes@[j as int].id,
                        #[trigger] h.nodes@[j as int].layers@[l2]@[k],
                        l2,
                    ),
            decreases nl - l,
        {
            let cap = if l == 0 {
                h.m_max0
            } else {
                h.m
            };
            let lst_len = h.nodes[j].layers[l].len();
            if lst_len > cap {
                proof {
                    assert(!h.node_wf(j as int));
                }
                return false;
            }
            let mut k: usize = 0;
            while k < lst_len
                invariant
                    j < n,
                    l < nl,
                    nl == h.nodes@[j as int].layers@.len(),
                    lst_len == h.nodes@[j as int].layers@[l as int]@.len(),
                    k <= lst_len,
                    forall|k2: int|
                        0 <= k2 < k ==> h.edge_ok(
                            h.nodes@[j as int].id,
                            #[trigger] h.nodes@[j as int].layers@[l as int]@[k2],
                            l as int,
                        ),
                decreases lst_len - k,
            {
                let e = h.nodes[j].layers[l][k];
                if e == h.nodes[j].id {
                    proof {
                        assert(!h.edge_ok(
                            h.nodes@[j as int].id,
                            h.nodes@[j as int].layers@[l as int]@[k as int],
                            l as int,
                        ));
                        assert(!h.node_wf(j as int));
                    }
                    return false;
                }
                match find_id_opt(h, e) {
                    None => {
                        proof {
                            assert(!h.edge_ok(
                                h.nodes@[j as int].id,
                                h.nodes@[j as int].layers@[l as int]@[k as int],
                                l as int,
                            ));
                            assert(!h.node_wf(j as int));
                        }
                        return false;
                    },
                    Some(w) => {
                        if h.nodes[w].layers.len() <= l {
                            proof {
                                assert(h.node_of(e) == h.nodes@[w as int]);
                                assert(!h.edge_ok(
                                    h.nodes@[j as int].id,
                                    h.nodes@[j as int].layers@[l as int]@[k as int],
                                    l as int,
                                ));
                                assert(!h.node_wf(j as int));
                            }
                            return false;
                        }
                        proof {
                            assert(h.node_of(e) == h.nodes@[w as int]);
                            assert(h.edge_ok(
                                h.nodes@[j as int].id,
                                h.nodes@[j as int].layers@[l as int]@[k as int],
                                l as int,
                            ));
                        }
                    },
                }
                k = k + 1;
            }
            l = l + 1;
        }
        proof {
            assert(h.node_wf(j as int));
        }
        j = j + 1;
    }
    true
}

fn check_entry(h: &Hnsw) -> (r: bool)
    requires
        h.ids_distinct(),
    ensures
        r == (match h.entry_point {
            None => h.nodes@.len() == 0 && h.max_layers == 0,
            Some(ep) => h.nodes@.len() > 0 && h.contains_id(ep) && h.node_of(ep).layers@.len()
                == h.max_layers + 1,
        }),
{
    match h.entry_point {
        None => h.nodes.len() == 0 && h.max_layers == 0,
        Some(ep) => {
            if h.nodes.len() == 0 {
                return false;
            }
            match find_id_opt(h, ep) {
                None => false,
                Some(w) => {
                    proof {
                        assert(h.node_of(ep) == h.nodes@[w as int]);
                    }
                    let ll = h.nodes[w].layers.len();
                    ll >= 1 && ll - 1 == h.max_layers
                },
            }
        },
    }
}

/// Decide the whole structural invariant.
fn check_index(h: &Hnsw) -> (r: bool)
    ensures
        r == h.wf(),
{
    if !(2 <= h.m && h.m <= 0x1000_0000) {
        return false;
    }
    if h.m_max0 != h.m * 2 {
        return false;
    }
    if !(1 <= h.ef_construction && h.ef_construction <= 0x1000_0000) {
        return false;
    }
    if !(h.max_layers <= 0x1000_0000) {
        return false;
    }
    if !check_distinct(h) {
        return false;
    }
    if !check_vectors(h) {
        return false;
    }
    if !check_nodes(h) {
        return false;
    }
    if !check_entry(h) {
        return false;
    }
    true
}

impl Hnsw {
    /// Reconstruct an index from a snapshot byte image. Malformed bytes
    /// and images of an index that would break the structural invariant
    /// are both rejected; what comes back is well formed and re-encodes
    /// to exactly the given bytes' content.
    #[verifier::rlimit(100)]
    pub fn load_snapshot_bytes(bytes: &Vec<u8>) -> (r: Result<Hnsw, SnapError>)
        ensures
            match r {
                Ok(h) => h.wf() && spec_load(bytes@) == Some(spec_model(h)),
                Err(SnapError::Malformed) => spec_load(bytes@) is None,
                Err(SnapError::Invalid) => spec_load(bytes@) is Some && (forall|g: Hnsw|
                    g.wf() ==> spec_model(g) != spec_load(bytes@)->Some_0),
            },
    {
        proof {
            lemma_auto_spec_u32_to_from_le_bytes();
            lemma_auto_spec_u64_to_from_le_bytes();
        }
        if bytes.len() < 37 {
            return Err(SnapError::Malformed);
        }
        let m64 = read_u64_at(bytes, 0);
        let ef64 = read_u64_at(bytes, 8);
        let maxl64 = read_u64_at(bytes, 16);
        let flag = bytes[24];
        let eid = read_u32_at(bytes, 25);
        let count = read_u64_at(bytes, 29);
        if flag != 0 && flag != 1 {
            return Err(SnapError::Malformed);
        }
        if flag == 0 && eid != 0 {
            return Err(SnapError::Malformed);
        }
        let entry_point: Option<u32> = if flag == 1 {
            Some(eid)
        } else {
            None
        };
        let parsed = match parse_nodes(bytes, 37, count) {
            None => {
                proof {
                    assert(bytes@.skip(37) =~= bytes@.skip(37int));
                }
                return Err(SnapError::Malformed);
            },
            Some(x) => x,
        };
        let (nodes, consumed) = parsed;
        if 37 + consumed != bytes.len() {
            return Err(SnapError::Malformed);
        }
        let ghost mdl = spec_load(bytes@)->Some_0;
        proof {
            assert(spec_load(bytes@) == Some(
                (m64, ef64, maxl64, entry_point, nodes_model(nodes@)),
            ));
        }
        if m64 < 2 || m64 > 0x1000_0000 || ef64 < 1 || ef64 > 0x1000_0000 || maxl64
            > 0x1000_0000 {
            proof {
                assert forall|g: Hnsw| g.wf() implies spec_model(g) != mdl by {
                    if spec_model(g) == mdl {
                        assert(g.m as u64 == m64 && g.ef_construction as u64 == ef64
                            && g.max_layers as u64 == maxl64);
                        assert(!g.params_ok());
                    }
                }
            }
            return Err(SnapError::Invalid);
        }
        let m = m64 as usize;
        let ef_construction = ef64 as usize;
        let max_layers = maxl64 as usize;
        let h = Hnsw { nodes, entry_point, max_layers, ef_construction, m, m_max0: m * 2 };
        proof {
            assert(spec_model(h) == mdl);
        }
        if check_index(&h) {
            Ok(h)
        } else {
            proof {
                assert forall|g: Hnsw| g.wf() implies spec_model(g) != mdl by {
                    if spec_model(g) == mdl {
                        lemma_wf_from_model(g, h);
                    }
                }
            }
            Err(SnapError::Invalid)
        }
    }
}

proof fn lemma_vec_len_bound<T>(v: &Vec<T>)
    ensures
        v@.len() <= usize::MAX,
{
    broadcast use vstd::std_specs::vec::axiom_spec_len;

    assert(vstd::std_specs::vec::spec_vec_len(v) == v@.len());
}

/// The snapshot law: a well-formed index loads back from its own byte
/// image with equal parameters, entry point, vectors and adjacency.
pub proof fn lemma_snapshot_round_trip(h: Hnsw)
    requires
        h.wf(),
    ensures
        spec_load(spec_save(spec_model(h))) == Some(spec_model(h)),
{
    let mdl = spec_model(h);
    assert(mdl.4.len() <= 0xFFFF_FFFF_FFFF_FFFF) by {
        lemma_vec_len_bound(&h.nodes);
    }
    assert forall|i: int|
        0 <= i < mdl.4.len() implies (#[trigger] mdl.4[i]).1.len() <= 0xFFFF_FFFF_FFFF_FFFF
        && mdl.4[i].2.len() <= 0xFFFF_FFFF_FFFF_FFFF by {
        assert(mdl.4[i] == (
            h.nodes@[i].id,
            h.nodes@[i].vector@,
            layers_model(h.nodes@[i].layers@),
        ));
        lemma_vec_len_bound(&h.nodes@[i].vector);
        lemma_vec_len_bound(&h.nodes@[i].layers);
    }
    assert forall|i: int, j: int|
        0 <= i < mdl.4.len() && 0 <= j < mdl.4[i].2.len() implies (#[trigger] mdl.4[i].2[j]).len()
        <= 0xFFFF_FFFF_FFFF_FFFF by {
        assert(mdl.4[i] == (
            h.nodes@[i].id,
            h.nodes@[i].vector@,
            layers_model(h.nodes@[i].layers@),
        ));
        assert(mdl.4[i].2[j] == h.nodes@[i].layers@[j]@);
        lemma_vec_len_bound(&h.nodes@[i].layers@[j]);
    }
    lemma_save_load(mdl);
}

} // verus!
