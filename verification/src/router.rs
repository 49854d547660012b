//! The request router: consistent-hash placement over an immutable
//! ring, write-quorum accounting, and the top-K merge of fanned-out
//! search results.

use vstd::prelude::*;
use vstd::bytes::{spec_u32_to_le_bytes, u32_to_le_bytes};
use std::collections::hash_map::DefaultHasher;
use std::hash::Hasher;
use crate::hnsw::{sorted_by_dist, pair_ids_distinct};

verus! {

use vstd::std_specs::hash::DefaultHasherAdditionalSpecFns;

/// A router-level failure: no node can serve the request.
#[derive(Clone, Copy, PartialEq, Eq, Structural, Debug)]
pub enum RouterError {
    Unavailable,
}

/// The placement hash of a node address: std's default hasher over the
/// address bytes.
pub open spec fn addr_hash(s: Seq<char>) -> u64 {
    DefaultHasher::spec_finish(seq![vstd::utf8::encode_utf8(s)])
}

/// The placement hash of a record key: std's default hasher over the
/// key's little-endian bytes.
pub open spec fn key_hash(k: u32) -> u64 {
    DefaultHasher::spec_finish(seq![spec_u32_to_le_bytes(k)])
}

fn hash_addr(s: &str) -> (r: u64)
    ensures
        r == addr_hash(s@),
{
    let mut h = DefaultHasher::new();
    h.write(s.as_bytes());
    proof {
        assert(h@ =~= seq![vstd::utf8::encode_utf8(s@)]);
    }
    h.finish()
}

fn hash_key(k: u32) -> (r: u64)
    ensures
        r == key_hash(k),
{
    let kb = u32_to_le_bytes(k);
    let mut h = DefaultHasher::new();
    h.write(kb.as_slice());
    proof {
        assert(h@ =~= seq![spec_u32_to_le_bytes(k)]);
    }
    h.finish()
}

/// The consistent-hash ring: node addresses keyed by the hash of the
/// address, kept in ascending hash order.
pub struct ConsistentHashRing {
    pub nodes: Vec<(u64, String)>,
}

impl ConsistentHashRing {
    /// Sorted strictly by hash, and every stored hash is the hash of
    /// its own address; distinct addresses follow.
    pub open spec fn wf(self) -> bool {
        &&& forall|i: int, j: int|
            0 <= i < j < self.nodes@.len() ==> (#[trigger] self.nodes@[i]).0 < (
            #[trigger] self.nodes@[j]).0
        &&& forall|i: int|
            0 <= i < self.nodes@.len() ==> (#[trigger] self.nodes@[i]).0 == addr_hash(
                self.nodes@[i].1@,
            )
    }

    pub fn new() -> (r: ConsistentHashRing)
        ensures
            r.wf(),
            r.nodes@.len() == 0,
    {
        ConsistentHashRing { nodes: Vec::new() }
    }

    /// Add (or re-add) a node address at its hash position.
    pub fn add_node(&mut self, node_addr: &str)
        requires
            old(self).wf(),
        ensures
            final(self).wf(),
            exists|i: int|
                0 <= i < final(self).nodes@.len() && (#[trigger] final(self).nodes@[i]).0
                    == addr_hash(node_addr@) && final(self).nodes@[i].1@ == node_addr@,
            forall|i: int|
                0 <= i < final(self).nodes@.len() && (#[trigger] final(self).nodes@[i]).0
                    != addr_hash(node_addr@) ==> old(self).nodes@.contains(final(self).nodes@[i]),
            forall|i: int|
                0 <= i < old(self).nodes@.len() && (#[trigger] old(self).nodes@[i]).0 != addr_hash(
                    node_addr@,
                ) ==> final(self).nodes@.contains(old(self).nodes@[i]),
    {
        let h = hash_addr(node_addr);
        let addr = node_addr.to_owned();
        let ghost pre = self.nodes@;
        let n = self.nodes.len();
        let mut p: usize = 0;
        while p < n && self.nodes[p].0 < h
            invariant
                n == self.nodes@.len(),
                self.nodes@ == pre,
                p <= n,
                forall|t: int| 0 <= t < p ==> (#[trigger] self.nodes@[t]).0 < h,
            decreases n - p,
        {
            p = p + 1;
        }
        if p < n && self.nodes[p].0 == h {
            self.nodes.set(p, (h, addr));
            proof {
                assert(self.nodes@[p as int].0 == addr_hash(node_addr@));
                assert(self.nodes@[p as int].1@ == node_addr@);
                assert forall|i: int|
                    0 <= i < self.nodes@.len() && (#[trigger] self.nodes@[i]).0 != addr_hash(
                        node_addr@,
                    ) implies pre.contains(self.nodes@[i]) by {
                    assert(self.nodes@[i] == pre[i]);
                }
                assert forall|i: int|
                    0 <= i < pre.len() && (#[trigger] pre[i]).0 != addr_hash(node_addr@) implies
                    self.nodes@.contains(pre[i]) by {
                    assert(self.nodes@[i] == pre[i]);
                }
            }
        } else {
            self.nodes.insert(p, (h, addr));
            proof {
                assert forall|i: int, j: int|
                    0 <= i < j < self.nodes@.len() implies (#[trigger] self.nodes@[i]).0 < (
                #[trigger] self.nodes@[j]).0 by {
                    if i < p && j == p {
                        assert(self.nodes@[i] == pre[i]);
                    } else if i == p && j > p {
                        assert(self.nodes@[j] == pre[j - 1]);
                        if j - 1 == p {
                        } else {
                            assert(pre[p as int].0 < pre[j - 1].0);
                        }
                    } else if i < p && j > p {
                        assert(self.nodes@[i] == pre[i]);
                        assert(self.nodes@[j] == pre[j - 1]);
                    } else if i > p && j > p {
                        assert(self.nodes@[i] == pre[i - 1]);
                        assert(self.nodes@[j] == pre[j - 1]);
                    }
                }
                assert(self.nodes@[p as int].1@ == node_addr@);
                assert(self.nodes@[p as int].0 == addr_hash(node_addr@));
                assert forall|i: int|
                    0 <= i < self.nodes@.len() && (#[trigger] self.nodes@[i]).0 != addr_hash(
                        node_addr@,
                    ) implies pre.contains(self.nodes@[i]) by {
                    if i < p {
                        assert(self.nodes@[i] == pre[i]);
                    } else if i > p {
                        assert(self.nodes@[i] == pre[i - 1]);
                    }
                }
                assert forall|i: int|
                    0 <= i < pre.len() && (#[trigger] pre[i]).0 != addr_hash(node_addr@) implies
                    self.nodes@.contains(pre[i]) by {
                    if i < p {
                        assert(self.nodes@[i] == pre[i]);
                    } else {
                        assert(self.nodes@[i + 1] == pre[i]);
                    }
                }
            }
        }
    }

    /// The replica preference order for a key: the first `n` ring
    /// entries starting at the first hash at or after the key's hash,
    /// wrapping around, never repeating an entry.
    pub open spec fn spec_preference_list(self, kh: u64, n: int) -> Seq<Seq<char>> {
        let len = self.nodes@.len() as int;
        let start = if exists|i: int| 0 <= i < len && (#[trigger] self.nodes@[i]).0 >= kh {
            choose|i: int|
                0 <= i < len && (#[trigger] self.nodes@[i]).0 >= kh && (forall|t: int|
                    0 <= t < i ==> (#[trigger] self.nodes@[t]).0 < kh)
        } else {
            0
        };
        let count = if n <= len {
            n
        } else {
            len
        };
        Seq::new(count as nat, |i: int| self.nodes@[(start + i) % len].1@)
    }

    /// Distinct addresses for the key, in preference order, at most `n`
    /// of them and never more than the ring holds.
    #[verifier::loop_isolation(false)]
    pub fn get_preference_list(&self, key: u32, n: usize) -> (r: Vec<String>)
        requires
            self.wf(),
        ensures
            r@.len() == if n <= self.nodes@.len() {
                n as int
            } else {
                self.nodes@.len() as int
            },
            forall|i: int|
                0 <= i < r@.len() ==> (#[trigger] r@[i])@ == self.spec_preference_list(
                    key_hash(key),
                    n as int,
                )[i],
    {
        let len = self.nodes.len();
        if len == 0 {
            let empty: Vec<String> = Vec::new();
            return empty;
        }
        let kh = hash_key(key);
        let mut start: usize = 0;
        while start < len && self.nodes[start].0 < kh
            invariant
                start <= len,
                forall|t: int| 0 <= t < start ==> (#[trigger] self.nodes@[t]).0 < kh,
            decreases len - start,
        {
            start = start + 1;
        }
        let start = if start == len {
            0
        } else {
            start
        };
        proof {
            let ghost_start = if exists|i: int|
                0 <= i < len && (#[trigger] self.nodes@[i]).0 >= key_hash(key) {
                choose|i: int|
                    0 <= i < len && (#[trigger] self.nodes@[i]).0 >= key_hash(key) && (forall|
                        t: int,
                    |
                        0 <= t < i ==> (#[trigger] self.nodes@[t]).0 < key_hash(key))
            } else {
                0
            };
            assert(ghost_start == start);
        }
        let count = if n <= len {
            n
        } else {
            len
        };
        let mut r: Vec<String> = Vec::new();
        let mut i: usize = 0;
        while i < count
            invariant
                i <= count,
                r@.len() == i,
                forall|t: int|
                    0 <= t < i ==> (#[trigger] r@[t])@ == self.spec_preference_list(
                        key_hash(key),
                        n as int,
                    )[t],
            decreases count - i,
        {
            let pos = if i < len - start {
                start + i
            } else {
                i - (len - start)
            };
            proof {
                if i < len - start {
                    lemma_mod_low(start as int + i as int, len as int);
                } else {
                    lemma_mod_high(start as int + i as int, len as int);
                }
                assert(pos as int == (start as int + i as int) % (len as int));
            }
            let addr = self.nodes[pos].1.clone();
            r.push(addr);
            i = i + 1;
        }
        r
    }

    /// Every node address, in ring (hash) order.
    pub fn get_all_nodes(&self) -> (r: Vec<String>)
        ensures
            r@.len() == self.nodes@.len(),
            forall|i: int| 0 <= i < r@.len() ==> (#[trigger] r@[i])@ == self.nodes@[i].1@,
    {
        let mut r: Vec<String> = Vec::new();
        let mut i: usize = 0;
        let n = self.nodes.len();
        while i < n
            invariant
                n == self.nodes@.len(),
                i <= n,
                r@.len() == i,
                forall|t: int| 0 <= t < i ==> (#[trigger] r@[t])@ == self.nodes@[t].1@,
            decreases n - i,
        {
            r.push(self.nodes[i].1.clone());
            i = i + 1;
        }
        r
    }
}

proof fn lemma_mod_low(x: int, m: int) by (nonlinear_arith)
    requires
        0 <= x < m,
    ensures
        x % m == x,
{
}

proof fn lemma_mod_high(x: int, m: int) by (nonlinear_arith)
    requires
        0 < m <= x < 2 * m,
    ensures
        x % m == x - m,
{
}

/// The router's immutable state: the ring, the replication factor `R`
/// and the write quorum `W`.
pub struct Router {
    pub ring: ConsistentHashRing,
    pub replication_factor: usize,
    pub write_quorum: usize,
}

impl Router {
    pub fn new(ring: ConsistentHashRing, replication_factor: usize, write_quorum: usize) -> (r:
        Router)
        ensures
            r.ring == ring,
            r.replication_factor == replication_factor,
            r.write_quorum == write_quorum,
    {
        Router { ring, replication_factor, write_quorum }
    }

    /// Where a put must go: the preference list for its key, or
    /// `Unavailable` when no target exists.
    pub fn plan_put(&self, id: u32) -> (r: Result<Vec<String>, RouterError>)
        requires
            self.ring.wf(),
        ensures
            match r {
                Ok(targets) => targets@.len() >= 1 && targets@.len() == if self.replication_factor
                    <= self.ring.nodes@.len() {
                    self.replication_factor as int
                } else {
                    self.ring.nodes@.len() as int
                } && forall|i: int|
                    0 <= i < targets@.len() ==> (#[trigger] targets@[i])@
                        == self.ring.spec_preference_list(
                        key_hash(id),
                        self.replication_factor as int,
                    )[i],
                Err(_) => self.ring.nodes@.len() == 0 || self.replication_factor == 0,
            },
    {
        let targets = self.ring.get_preference_list(id, self.replication_factor);
        if targets.len() == 0 {
            Err(RouterError::Unavailable)
        } else {
            Ok(targets)
        }
    }

    /// Where a search must go: every node, or `Unavailable` on an empty
    /// ring.
    pub fn plan_search(&self) -> (r: Result<Vec<String>, RouterError>)
        ensures
            match r {
                Ok(targets) => targets@.len() == self.ring.nodes@.len() && targets@.len() >= 1
                    && forall|i: int|
                    0 <= i < targets@.len() ==> (#[trigger] targets@[i])@
                        == self.ring.nodes@[i].1@,
                Err(_) => self.ring.nodes@.len() == 0,
            },
    {
        let targets = self.ring.get_all_nodes();
        if targets.len() == 0 {
            Err(RouterError::Unavailable)
        } else {
            Ok(targets)
        }
    }
}

/// How many replicas acknowledged.
pub open spec fn count_acks(s: Seq<bool>) -> int
    decreases s.len(),
{
    if s.len() == 0 {
        0
    } else {
        count_acks(s.drop_last()) + (if s.last() {
            1int
        } else {
            0int
        })
    }
}

/// A put succeeds exactly when the acknowledgement count reaches the
/// write quorum.
pub fn write_quorum_met(acks: &Vec<bool>, write_quorum: usize) -> (r: bool)
    ensures
        r == (count_acks(acks@) >= write_quorum),
{
    let mut c: usize = 0;
    let mut i: usize = 0;
    while i < acks.len()
        invariant
            i <= acks@.len(),
            c == count_acks(acks@.take(i as int)),
            c <= i,
        decreases acks@.len() - i,
    {
        if acks[i] {
            c = c + 1;
        }
        proof {
            assert(acks@.take(i + 1).drop_last() =~= acks@.take(i as int));
            assert(acks@.take(i + 1).last() == acks@[i as int]);
        }
        i = i + 1;
    }
    proof {
        assert(acks@.take(acks@.len() as int) =~= acks@);
    }
    c >= write_quorum
}

/// Whether some pair in `s` carries `id`.
pub open spec fn has_id(s: Seq<(u32, u128)>, id: u32) -> bool {
    exists|i: int| 0 <= i < s.len() && (#[trigger] s[i]).0 == id
}

/// Index of the first pair carrying `id` (meaningful when one exists).
pub open spec fn first_occ(s: Seq<(u32, u128)>, id: u32) -> int
    decreases s.len(),
{
    if s.len() == 0 {
        0
    } else if s[0].0 == id {
        0
    } else {
        1 + first_occ(s.drop_first(), id)
    }
}

proof fn lemma_first_occ(s: Seq<(u32, u128)>, id: u32)
    requires
        has_id(s, id),
    ensures
        0 <= first_occ(s, id) < s.len(),
        s[first_occ(s, id)].0 == id,
        forall|t: int| 0 <= t < first_occ(s, id) ==> (#[trigger] s[t]).0 != id,
    decreases s.len(),
{
    if s[0].0 == id {
    } else {
        let w = choose|i: int| 0 <= i < s.len() && (#[trigger] s[i]).0 == id;
        assert(s.drop_first()[w - 1].0 == id);
        assert(has_id(s.drop_first(), id));
        lemma_first_occ(s.drop_first(), id);
        assert forall|t: int| 0 <= t < first_occ(s, id) implies (#[trigger] s[t]).0 != id by {
            if t > 0 {
                assert(s[t] == s.drop_first()[t - 1]);
            }
        }
    }
}

/// What the fan-out merge returns: at most `k` pairs, sorted by
/// ascending distance, one per id; each pair is taken from the input,
/// carries the smallest distance reported for its id, ids are dropped
/// only once `k` distinct ones are kept and only if they lost to every
/// kept pair, and ties keep first-report order.
pub open spec fn is_top_k_merge(input: Seq<(u32, u128)>, k: int, r: Seq<(u32, u128)>) -> bool {
    &&& sorted_by_dist(r)
    &&& pair_ids_distinct(r)
    &&& r.len() <= k
    &&& forall|j: int| 0 <= j < r.len() ==> input.contains(#[trigger] r[j])
    &&& forall|j: int, i: int|
        0 <= j < r.len() && 0 <= i < input.len() && (#[trigger] input[i]).0 == (
        #[trigger] r[j]).0 ==> r[j].1 <= input[i].1
    &&& forall|i: int| 0 <= i < input.len() ==> has_id(r, (#[trigger] input[i]).0) || r.len() == k
    &&& forall|a: int, b: int|
        0 <= a < b < r.len() && (#[trigger] r[a]).1 == (#[trigger] r[b]).1 ==> first_occ(
            input,
            r[a].0,
        ) < first_occ(input, r[b].0)
    &&& forall|j: int, i: int|
        0 <= j < r.len() && 0 <= i < input.len() && !has_id(r, (#[trigger] input[i]).0) ==> (
        #[trigger] r[j]).1 <= input[i].1
}

fn find_pair_idx(acc: &Vec<(u32, u128)>, id: u32) -> (r: Option<usize>)
    ensures
        match r {
            Some(w) => w < acc@.len() && acc@[w as int].0 == id,
            None => !has_id(acc@, id),
        },
{
    let mut i: usize = 0;
    while i < acc.len()
        invariant
            i <= acc@.len(),
            forall|t: int| 0 <= t < i ==> (#[trigger] acc@[t]).0 != id,
        decreases acc@.len() - i,
    {
        if acc[i].0 == id {
            return Some(i);
        }
        i = i + 1;
    }
    None
}

/// Merge fanned-out search results: sort by ascending distance with
/// first-report order on ties, keep the closest copy of each id, and
/// truncate to the best `k`.
#[verifier::loop_isolation(false)]
#[verifier::rlimit(100)]
pub fn merge_results(all_results: &Vec<(u32, u128)>, k: usize) -> (r: Vec<(u32, u128)>)
    ensures
        is_top_k_merge(all_results@, k as int, r@),
{
    let ghost input = all_results@;
    // one pair per id, carrying its smallest distance, in first-report
    // order
    let mut acc: Vec<(u32, u128)> = Vec::new();
    let mut i: usize = 0;
    while i < all_results.len()
        invariant
            i <= input.len(),
            pair_ids_distinct(acc@),
            forall|a: int| 0 <= a < acc@.len() ==> input.contains(#[trigger] acc@[a]),
            forall|a: int, t: int|
                0 <= a < acc@.len() && 0 <= t < i && (#[trigger] input[t]).0 == (
                #[trigger] acc@[a]).0 ==> acc@[a].1 <= input[t].1,
            forall|t: int| 0 <= t < i ==> has_id(acc@, (#[trigger] input[t]).0),
            forall|a: int|
                0 <= a < acc@.len() ==> 0 <= first_occ(input, (#[trigger] acc@[a]).0) < i
                    && input[first_occ(input, acc@[a].0)].0 == acc@[a].0,
            forall|a: int, b: int|
                0 <= a < b < acc@.len() ==> first_occ(input, (#[trigger] acc@[a]).0) < first_occ(
                    input,
                    (#[trigger] acc@[b]).0,
                ),
        decreases input.len() - i,
    {
        let p = all_results[i];
        let ghost acc_in = acc@;
        match find_pair_idx(&acc, p.0) {
            Some(w) => {
                if acc[w].1 > p.1 {
                    let ghost acc0 = acc@;
                    acc.set(w, p);
                    proof {
                        assert forall|a: int|
                            0 <= a < acc@.len() implies input.contains(#[trigger] acc@[a]) by {
                            if a == w {
                                assert(input[i as int] == p);
                            } else {
                                assert(acc@[a] == acc0[a]);
                            }
                        }
                        assert forall|x: u32| has_id(acc0, x) implies has_id(acc@, x) by {
                            let t2 = choose|t2: int|
                                0 <= t2 < acc0.len() && (#[trigger] acc0[t2]).0 == x;
                            if t2 == w {
                                assert(acc@[t2].0 == x);
                            } else {
                                assert(acc@[t2] == acc0[t2]);
                            }
                        }
                    }
                }
                proof {
                    assert(has_id(acc@, input[i as int].0)) by {
                        assert(acc@[w as int].0 == input[i as int].0);
                    }
                }
            },
            None => {
                proof {
                    // this id was never seen: its first occurrence is i
                    assert forall|t: int| 0 <= t < i implies (#[trigger] input[t]).0 != p.0 by {
                        if input[t].0 == p.0 {
                            assert(has_id(acc@, input[t].0));
                        }
                    }
                    assert(has_id(input, p.0)) by {
                        assert(input[i as int].0 == p.0);
                    }
                    lemma_first_occ(input, p.0);
                    assert(first_occ(input, p.0) == i) by {
                        if first_occ(input, p.0) < i {
                            assert(input[first_occ(input, p.0)].0 == p.0);
                        }
                        if first_occ(input, p.0) > i {
                            assert(input[i as int].0 != p.0);
                        }
                    }
                }
                acc.push(p);
                proof {
                    assert(input.contains(p)) by {
                        assert(input[i as int] == p);
                    }
                    assert(has_id(acc@, input[i as int].0)) by {
                        assert(acc@[acc@.len() - 1].0 == p.0);
                    }
                    assert forall|x: u32| has_id(acc_in, x) implies has_id(acc@, x) by {
                        let t2 = choose|t2: int|
                            0 <= t2 < acc_in.len() && (#[trigger] acc_in[t2]).0 == x;
                        assert(acc@[t2] == acc_in[t2]);
                    }
                }
            },
        }
        proof {
            assert forall|t: int| 0 <= t <= i implies has_id(acc@, (#[trigger] input[t]).0) by {
                if t < i {
                    assert(has_id(acc_in, input[t].0));
                }
            }
        }
        i = i + 1;
    }
    // stable sort by distance
    let mut out: Vec<(u32, u128)> = Vec::new();
    let mut a: usize = 0;
    while a < acc.len()
        invariant
            a <= acc@.len(),
            out@.len() == a,
            sorted_by_dist(out@),
            pair_ids_distinct(out@),
            forall|j: int|
                0 <= j < out@.len() ==> exists|w: int| 0 <= w < a && acc@[w] == #[trigger] out@[j],
            forall|w: int| 0 <= w < a ==> has_id(out@, (#[trigger] acc@[w]).0),
            forall|x: int, y: int|
                0 <= x < y < out@.len() && (#[trigger] out@[x]).1 == (#[trigger] out@[y]).1
                    ==> first_occ(input, out@[x].0) < first_occ(input, out@[y].0),
        decreases acc@.len() - a,
    {
        let item = acc[a];
        let ghost out0 = out@;
        proof {
            assert forall|j: int| 0 <= j < out0.len() implies (#[trigger] out0[j]).0 != item.0
                && first_occ(input, out0[j].0) < first_occ(input, item.0) by {
                let w = choose|w: int| 0 <= w < a && acc@[w] == out0[j];
            }
        }
        crate::hnsw::insert_sorted(&mut out, item);
        proof {
            let p = choose|p: int|
                {
                    &&& 0 <= p <= out0.len()
                    &&& out@ == out0.insert(p, item)
                    &&& (forall|t: int| 0 <= t < p ==> (#[trigger] out0[t]).1 <= item.1)
                    &&& (forall|t: int| p <= t < out0.len() ==> item.1 < (#[trigger] out0[t]).1)
                };
            assert forall|j: int|
                0 <= j < out@.len() implies exists|w: int|
                0 <= w < a + 1 && acc@[w] == #[trigger] out@[j] by {
                if j < p {
                    assert(out@[j] == out0[j]);
                    let w = choose|w: int| 0 <= w < a && acc@[w] == out0[j];
                } else if j == p {
                    assert(out@[j] == item);
                    assert(acc@[a as int] == item);
                } else {
                    assert(out@[j] == out0[j - 1]);
                    let w = choose|w: int| 0 <= w < a && acc@[w] == out0[j - 1];
                }
            }
            assert forall|w: int| 0 <= w < a + 1 implies has_id(out@, (#[trigger] acc@[w]).0) by {
                if w < a {
                    let j = choose|j: int| 0 <= j < out0.len() && (#[trigger] out0[j]).0 == acc@[w].0;
                    if j < p {
                        assert(out@[j].0 == acc@[w].0);
                    } else {
                        assert(out@[j + 1].0 == acc@[w].0);
                    }
                } else {
                    assert(out@[p].0 == acc@[w].0);
                }
            }
            assert(pair_ids_distinct(out@)) by {
                assert forall|x: int, y: int|
                    0 <= x < y < out@.len() implies (#[trigger] out@[x]).0 != (
                #[trigger] out@[y]).0 by {
                    if x < p && y < p {
                    } else if x < p && y == p {
                        assert(out@[x] == out0[x]);
                    } else if x == p && y > p {
                        assert(out@[y] == out0[y - 1]);
                    } else if x < p && y > p {
                        assert(out@[x] == out0[x]);
                        assert(out@[y] == out0[y - 1]);
                    } else {
                        assert(out@[x] == out0[x - 1]);
                        assert(out@[y] == out0[y - 1]);
                    }
                }
            }
            assert forall|x: int, y: int|
                0 <= x < y < out@.len() && (#[trigger] out@[x]).1 == (#[trigger] out@[y]).1
                    implies first_occ(input, out@[x].0) < first_occ(input, out@[y].0) by {
                if x < p && y < p {
                } else if x < p && y == p {
                    assert(out@[x] == out0[x]);
                } else if x == p && y > p {
                    assert(out@[y] == out0[y - 1]);
                    assert(item.1 < out0[y - 1].1);
                } else if x < p && y > p {
                    assert(out@[x] == out0[x]);
                    assert(out@[y] == out0[y - 1]);
                } else {
                    assert(out@[x] == out0[x - 1]);
                    assert(out@[y] == out0[y - 1]);
                }
            }
        }
        a = a + 1;
    }
    // keep the best k
    let ghost full = out@;
    out.truncate(k);
    proof {
        if k < full.len() {
            assert(out@ == full.subrange(0, k as int));
        }
        assert forall|j: int| 0 <= j < out@.len() implies input.contains(#[trigger] out@[j]) by {
            assert(out@[j] == full[j]);
            let w = choose|w: int| 0 <= w < acc@.len() && acc@[w] == full[j];
        }
        assert forall|j: int, t: int|
            0 <= j < out@.len() && 0 <= t < input.len() && (#[trigger] input[t]).0 == (
        #[trigger] out@[j]).0 implies out@[j].1 <= input[t].1 by {
            assert(out@[j] == full[j]);
            let w = choose|w: int| 0 <= w < acc@.len() && acc@[w] == full[j];
        }
        assert forall|t: int|
            0 <= t < input.len() implies has_id(out@, (#[trigger] input[t]).0) || out@.len()
            == k by {
            if out@.len() < k {
                assert(out@ =~= full);
                assert(has_id(acc@, input[t].0));
                let w = choose|w: int| 0 <= w < acc@.len() && (#[trigger] acc@[w]).0 == input[t].0;
                assert(has_id(full, acc@[w].0));
            }
        }
        assert forall|j: int, t: int|
            0 <= j < out@.len() && 0 <= t < input.len() && !has_id(out@, (#[trigger] input[t]).0)
            implies (#[trigger] out@[j]).1 <= input[t].1 by {
            assert(has_id(acc@, input[t].0));
            let w = choose|w: int| 0 <= w < acc@.len() && (#[trigger] acc@[w]).0 == input[t].0;
            assert(has_id(full, acc@[w].0));
            let u = choose|u: int| 0 <= u < full.len() && (#[trigger] full[u]).0 == acc@[w].0;
            assert(u >= out@.len()) by {
                if u < out@.len() {
                    assert(out@[u] == full[u]);
                    assert(out@[u].0 == input[t].0);
                }
            }
            assert(out@[j] == full[j]);
            assert(full[j].1 <= full[u].1);
            let w2 = choose|w2: int| 0 <= w2 < acc@.len() && acc@[w2] == full[u];
            assert(acc@[w2].0 == input[t].0);
            assert(full[u].1 <= input[t].1);
        }
    }
    out
}

proof fn lemma_distinct_ids_sub(r_ids: Seq<u32>, m_ids: Seq<u32>)
    requires
        r_ids.no_duplicates(),
        forall|i: int| 0 <= i < r_ids.len() ==> m_ids.contains(#[trigger] r_ids[i]),
    ensures
        r_ids.len() <= m_ids.len(),
{
    broadcast use vstd::seq_lib::seq_to_set_is_finite;
    broadcast use vstd::set::group_set_axioms;

    r_ids.unique_seq_to_set();
    m_ids.lemma_cardinality_of_set();
    assert(r_ids.to_set().subset_of(m_ids.to_set())) by {
        assert forall|x: u32| r_ids.to_set().contains(x) implies m_ids.to_set().contains(x) by {
            assert(r_ids.contains(x));
        }
    }
    vstd::set_lib::lemma_len_subset(r_ids.to_set(), m_ids.to_set());
}

/// Two distance-sorted sequences with one pair per id, the same pairs,
/// and the same tie order are equal.
proof fn lemma_sorted_merge_unique(
    a: Seq<(u32, u128)>,
    b: Seq<(u32, u128)>,
    focc: spec_fn(u32) -> int,
)
    requires
        sorted_by_dist(a),
        sorted_by_dist(b),
        pair_ids_distinct(a),
        pair_ids_distinct(b),
        a.len() == b.len(),
        forall|i: int| 0 <= i < a.len() ==> b.contains(#[trigger] a[i]),
        forall|i: int| 0 <= i < b.len() ==> a.contains(#[trigger] b[i]),
        forall|x: int, y: int|
            0 <= x < y < a.len() && (#[trigger] a[x]).1 == (#[trigger] a[y]).1 ==> focc(a[x].0)
                < focc(a[y].0),
        forall|x: int, y: int|
            0 <= x < y < b.len() && (#[trigger] b[x]).1 == (#[trigger] b[y]).1 ==> focc(b[x].0)
                < focc(b[y].0),
    ensures
        a == b,
    decreases a.len(),
{
    if a.len() == 0 {
        assert(a =~= b);
    } else {
        assert(b.contains(a[0]));
        let j = choose|j: int| 0 <= j < b.len() && b[j] == a[0];
        assert(a.contains(b[0]));
        let i = choose|i: int| 0 <= i < a.len() && a[i] == b[0];
        assert(b[0].1 <= b[j].1);
        assert(a[0].1 <= a[i].1);
        assert(a[0].1 == b[0].1);
        if a[0] != b[0] {
            assert(a[0].0 != b[0].0) by {
                if a[0].0 == b[0].0 {
                    assert(b[j].0 == b[0].0);
                    assert(j != 0);
                }
            }
            assert(j != 0 && i != 0);
            assert(focc(b[0].0) < focc(b[j].0));
            assert(focc(a[0].0) < focc(a[i].0));
            assert(false);
        }
        let a2 = a.drop_first();
        let b2 = b.drop_first();
        assert forall|t: int| 0 <= t < a2.len() implies b2.contains(#[trigger] a2[t]) by {
            assert(a2[t] == a[t + 1]);
            assert(b.contains(a[t + 1]));
            let w = choose|w: int| 0 <= w < b.len() && b[w] == a[t + 1];
            assert(a[t + 1].0 != a[0].0);
            assert(w != 0);
            assert(b2[w - 1] == a[t + 1]);
        }
        assert forall|t: int| 0 <= t < b2.len() implies a2.contains(#[trigger] b2[t]) by {
            assert(b2[t] == b[t + 1]);
            assert(a.contains(b[t + 1]));
            let w = choose|w: int| 0 <= w < a.len() && a[w] == b[t + 1];
            assert(b[t + 1].0 != b[0].0);
            assert(w != 0);
            assert(a2[w - 1] == b[t + 1]);
        }
        assert forall|x: int, y: int|
            0 <= x < y < a2.len() && (#[trigger] a2[x]).1 == (#[trigger] a2[y]).1 implies focc(
            a2[x].0,
        ) < focc(a2[y].0) by {
            assert(a2[x] == a[x + 1] && a2[y] == a[y + 1]);
        }
        assert forall|x: int, y: int|
            0 <= x < y < b2.len() && (#[trigger] b2[x]).1 == (#[trigger] b2[y]).1 implies focc(
            b2[x].0,
        ) < focc(b2[y].0) by {
            assert(b2[x] == b[x + 1] && b2[y] == b[y + 1]);
        }
        assert forall|x: int, y: int|
            0 <= x < y < a2.len() implies (#[trigger] a2[x]).1 <= (#[trigger] a2[y]).1 && a2[x].0
            != a2[y].0 by {
            assert(a2[x] == a[x + 1] && a2[y] == a[y + 1]);
        }
        assert forall|x: int, y: int|
            0 <= x < y < b2.len() implies (#[trigger] b2[x]).1 <= (#[trigger] b2[y]).1 && b2[x].0
            != b2[y].0 by {
            assert(b2[x] == b[x + 1] && b2[y] == b[y + 1]);
        }
        lemma_sorted_merge_unique(a2, b2, focc);
        assert forall|t: int| 0 <= t < a.len() implies a[t] == b[t] by {
            if t > 0 {
                assert(a[t] == a2[t - 1]);
                assert(b[t] == b2[t - 1]);
            }
        }
        assert(a =~= b);
    }
}

/// The merge law: merging a top-K result with itself gives that result
/// back unchanged.
pub proof fn lemma_merge_self_idempotent(m: Seq<(u32, u128)>, k: int, r: Seq<(u32, u128)>)
    requires
        sorted_by_dist(m),
        pair_ids_distinct(m),
        m.len() <= k,
        forall|x: int, y: int|
            0 <= x < y < m.len() && (#[trigger] m[x]).1 == (#[trigger] m[y]).1 ==> first_occ(
                m + m,
                m[x].0,
            ) < first_occ(m + m, m[y].0),
        is_top_k_merge(m + m, k, r),
    ensures
        r == m,
{
    let mm = m + m;
    assert(mm.len() == 2 * m.len());
    assert forall|i: int| 0 <= i < m.len() implies mm[i] == m[i] by {}
    // every merged pair is a pair of m
    assert forall|j: int| 0 <= j < r.len() implies m.contains(#[trigger] r[j]) by {
        assert(mm.contains(r[j]));
        let w = choose|w: int| 0 <= w < mm.len() && mm[w] == r[j];
        if w < m.len() {
            assert(m[w] == r[j]);
        } else {
            assert(m[w - m.len()] == r[j]);
        }
    }
    // r cannot be longer than m
    let r_ids = Seq::new(r.len(), |j: int| r[j].0);
    let m_ids = Seq::new(m.len(), |i: int| m[i].0);
    assert(r_ids.no_duplicates());
    assert forall|j: int| 0 <= j < r_ids.len() implies m_ids.contains(#[trigger] r_ids[j]) by {
        assert(m.contains(r[j]));
        let w = choose|w: int| 0 <= w < m.len() && m[w] == r[j];
        assert(m_ids[w] == r_ids[j]);
    }
    lemma_distinct_ids_sub(r_ids, m_ids);
    assert(r.len() <= m.len());
    // and not shorter: every id of m is kept
    assert forall|i: int| 0 <= i < m.len() implies has_id(r, (#[trigger] m[i]).0) by {
        if r.len() < k {
            assert(mm[i] == m[i]);
            assert(has_id(r, mm[i].0) || r.len() == k);
        } else {
            assert(k <= m.len() && r.len() <= m.len() && m.len() <= k);
            assert(r.len() == m.len());
            // all of m's ids appear among r's distinct ids by counting
            let m_ids2 = Seq::new(m.len(), |t: int| m[t].0);
            if !has_id(r, m[i].0) {
                // then r's ids fit inside m's ids minus one, contradiction
                assert forall|j: int|
                    0 <= j < r_ids.len() implies Seq::new(
                    m.len(),
                    |t: int| m[t].0,
                ).remove(i).contains(#[trigger] r_ids[j]) by {
                    assert(m.contains(r[j]));
                    let w = choose|w: int| 0 <= w < m.len() && m[w] == r[j];
                    assert(w != i);
                    if w < i {
                        assert(m_ids2.remove(i)[w] == m[w].0);
                    } else {
                        assert(m_ids2.remove(i)[w - 1] == m[w].0);
                    }
                }
                lemma_distinct_ids_sub(r_ids, m_ids2.remove(i));
                assert(false);
            }
        }
    }
    assert(r.len() == m.len()) by {
        if r.len() < m.len() {
            // an injection from m's ids into r's ids would overflow
            let m_ids3 = Seq::new(m.len(), |t: int| m[t].0);
            assert(m_ids3.no_duplicates());
            assert forall|i: int| 0 <= i < m_ids3.len() implies r_ids.contains(
                #[trigger] m_ids3[i],
            ) by {
                assert(has_id(r, m[i].0));
                let w = choose|w: int| 0 <= w < r.len() && (#[trigger] r[w]).0 == m[i].0;
                assert(r_ids[w] == m[i].0);
            }
            lemma_distinct_ids_sub(m_ids3, r_ids);
        }
    }
    assert forall|i: int| 0 <= i < m.len() implies r.contains(#[trigger] m[i]) by {
        assert(has_id(r, m[i].0));
        let w = choose|w: int| 0 <= w < r.len() && (#[trigger] r[w]).0 == m[i].0;
        assert(m.contains(r[w]));
        let u = choose|u: int| 0 <= u < m.len() && m[u] == r[w];
        assert(m[u].0 == m[i].0);
        if u != i {
            assert(m[u].0 != m[i].0);
        }
        assert(r[w] == m[i]);
    }
    let focc = |id: u32| first_occ(mm, id);
    lemma_sorted_merge_unique(r, m, focc);
}

} // verus!
