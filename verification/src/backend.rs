//! The backend node: write-ahead log first, index second. A record is
//! framed and appended to the log before the graph is touched, so a
//! successful put always leaves a parseable, checksummed log record
//! behind (the surrounding process persists exactly those bytes before
//! reporting success). Recovery replays the log into a fresh index.

use vstd::prelude::*;
use crate::distance::{coord_ok, coords_ok};
use crate::hnsw::{Hnsw, sorted_by_dist, pair_ids_distinct};
use crate::snapshot::{spec_save, spec_model};
use crate::wal::{
    Wal, WalEntry, OpType, spec_parse_stream, spec_encode_record, lemma_parse_snoc, read_all_bytes,
};
use crate::distance::spec_dist_sq;

verus! {

/// A request the backend refuses without touching any state: an empty,
/// oversized or mis-sized vector, an out-of-range coordinate, or a
/// reused id.
#[derive(Clone, Copy, PartialEq, Eq, Structural, Debug)]
pub enum BackendError {
    InvalidArgument,
}

/// Why replaying a log failed: the bytes are damaged, a reserved
/// delete record appeared, or a record breaks the index preconditions.
#[derive(Clone, Copy, PartialEq, Eq, Structural, Debug)]
pub enum ReplayError {
    Corrupt,
    Delete,
    Invalid,
}

/// A vector a put accepts: non-empty, bounded size, bounded
/// coordinates.
pub open spec fn vector_admissible(v: Seq<i64>) -> bool {
    &&& 1 <= v.len() < 0x0800_0000
    &&& coords_ok(v)
}

/// A parsed log that can rebuild an index: inserts only, admissible
/// equal-length vectors, distinct ids.
pub open spec fn entries_replayable(es: Seq<(OpType, u32, Seq<i64>)>) -> bool {
    &&& forall|i: int| 0 <= i < es.len() ==> (#[trigger] es[i]).0 == OpType::Insert
    &&& forall|i: int| 0 <= i < es.len() ==> vector_admissible((#[trigger] es[i]).2)
    &&& forall|i: int| 0 <= i < es.len() ==> (#[trigger] es[i]).2.len() == es[0].2.len()
    &&& forall|i: int, j: int| 0 <= i < j < es.len() ==> (#[trigger] es[i]).1 != (#[trigger] es[j]).1
}

/// One backend: its in-memory graph index and the byte image of its
/// write-ahead log.
pub struct MyVectorDb {
    pub index: Hnsw,
    pub wal: Wal,
}

impl MyVectorDb {
    /// The log parses, holds one insert per node, in insertion order,
    /// with matching ids and vectors; the index is well-formed.
    pub open spec fn wf(self) -> bool {
        &&& self.index.wf()
        &&& spec_parse_stream(self.wal.log@) is Some
        &&& {
            let es = spec_parse_stream(self.wal.log@)->Some_0;
            &&& es.len() == self.index.nodes@.len()
            &&& forall|i: int|
                0 <= i < es.len() ==> (#[trigger] es[i]).0 == OpType::Insert && es[i].1
                    == self.index.nodes@[i].id && es[i].2 == self.index.nodes@[i].vector@
        }
    }

    /// A fresh backend: empty index, empty log.
    pub fn new(m: usize, ef_construction: usize) -> (r: MyVectorDb)
        requires
            2 <= m <= 0x1000_0000,
            1 <= ef_construction <= 0x1000_0000,
        ensures
            r.wf(),
            r.index.nodes@.len() == 0,
            r.wal.log@.len() == 0,
            r.index.m == m,
            r.index.ef_construction == ef_construction,
    {
        MyVectorDb { index: Hnsw::new(m, ef_construction), wal: Wal::new() }
    }

    /// Store a record: validate, append to the log, then insert into
    /// the graph. On success the log has grown by exactly one framed
    /// record whose checksum covers this record's payload; on failure
    /// nothing changed. The returned bytes are the appended frame.
    #[verifier::loop_isolation(false)]
    pub fn put(&mut self, id: u32, vector: Vec<i64>) -> (r: Result<Vec<u8>, BackendError>)
        requires
            old(self).wf(),
        ensures
            final(self).wf(),
            match r {
                Ok(frame) => {
                    &&& vector_admissible(vector@)
                    &&& !old(self).index.contains_id(id)
                    &&& (old(self).index.nodes@.len() > 0 ==> vector@.len() == old(
                        self,
                    ).index.spec_dim())
                    &&& frame@ == spec_encode_record(OpType::Insert, id, vector@)
                    &&& final(self).wal.log@ == old(self).wal.log@ + frame@
                    &&& spec_parse_stream(final(self).wal.log@) == Some(
                        spec_parse_stream(old(self).wal.log@)->Some_0.push(
                            (OpType::Insert, id, vector@),
                        ),
                    )
                    &&& final(self).index.contains_id(id)
                    &&& final(self).index.vector_of(id) == vector@
                    &&& final(self).index.nodes@.len() == old(self).index.nodes@.len() + 1
                },
                Err(_) => {
                    &&& *final(self) == *old(self)
                    &&& !(vector_admissible(vector@) && !old(self).index.contains_id(id) && (old(
                        self,
                    ).index.nodes@.len() > 0 ==> vector@.len() == old(self).index.spec_dim()))
                },
            },
    {
        // validate
        if vector.len() == 0 || vector.len() >= 0x0800_0000 {
            return Err(BackendError::InvalidArgument);
        }
        let mut c: usize = 0;
        while c < vector.len()
            invariant
                c <= vector@.len(),
                forall|t: int| 0 <= t < c ==> coord_ok(#[trigger] vector@[t]),
            decreases vector@.len() - c,
        {
            let x = vector[c];
            if x < -crate::distance::COORD_LIMIT || x > crate::distance::COORD_LIMIT {
                return Err(BackendError::InvalidArgument);
            }
            c = c + 1;
        }
        if self.index.nodes.len() > 0 {
            let dim = self.index.nodes[0].vector.len();
            if vector.len() != dim {
                return Err(BackendError::InvalidArgument);
            }
        }
        let mut present = false;
        let mut t: usize = 0;
        let n = self.index.nodes.len();
        while t < n
            invariant
                n == self.index.nodes@.len(),
                t <= n,
                !present ==> forall|w: int|
                    0 <= w < t ==> (#[trigger] self.index.nodes@[w]).id != id,
                present ==> self.index.contains_id(id),
            decreases n - t,
        {
            if self.index.nodes[t].id == id {
                present = true;
            }
            t = t + 1;
        }
        if present {
            return Err(BackendError::InvalidArgument);
        }
        proof {
            assert(!self.index.contains_id(id));
        }
        // log first
        let entry = WalEntry { op: OpType::Insert, vector_id: id, vector };
        let frame = self.wal.append(&entry);
        proof {
            lemma_parse_snoc(old(self).wal.log@, OpType::Insert, id, entry.vector@);
        }
        // then the graph
        self.index.insert(id, entry.vector);
        proof {
            let es0 = spec_parse_stream(old(self).wal.log@)->Some_0;
            let es = spec_parse_stream(self.wal.log@)->Some_0;
            assert(es == es0.push((OpType::Insert, id, vector@)));
            assert forall|i: int|
                0 <= i < es.len() implies (#[trigger] es[i]).0 == OpType::Insert && es[i].1
                == self.index.nodes@[i].id && es[i].2 == self.index.nodes@[i].vector@ by {
                if i < es0.len() {
                    assert(es[i] == es0[i]);
                } else {
                    assert(es[i] == (OpType::Insert, id, vector@));
                }
            }
        }
        Ok(frame)
    }

    /// Query the index: reject an empty or unusable probe vector, else
    /// hand back the index's nearest neighbours in ascending order of
    /// squared distance.
    #[verifier::loop_isolation(false)]
    pub fn search(&self, query: &Vec<i64>, k: usize) -> (r: Result<
        Vec<(u32, u128)>,
        BackendError,
    >)
        requires
            self.wf(),
        ensures
            match r {
                Ok(res) => {
                    &&& vector_admissible(query@)
                    &&& (self.index.nodes@.len() > 0 ==> query@.len() == self.index.spec_dim())
                    &&& res@.len() <= k
                    &&& sorted_by_dist(res@)
                    &&& pair_ids_distinct(res@)
                    &&& forall|i: int|
                        0 <= i < res@.len() ==> self.index.contains_id((#[trigger] res@[i]).0)
                            && res@[i].1 == spec_dist_sq(
                            query@,
                            self.index.vector_of(res@[i].0),
                        )
                    &&& (self.index.nodes@.len() > 0 && k >= 1 ==> res@.len() >= 1)
                    &&& (self.index.nodes@.len() == 0 ==> res@.len() == 0)
                },
                Err(_) => !(vector_admissible(query@) && (self.index.nodes@.len() > 0
                    ==> query@.len() == self.index.spec_dim())),
            },
    {
        if query.len() == 0 || query.len() >= 0x0800_0000 {
            return Err(BackendError::InvalidArgument);
        }
        let mut c: usize = 0;
        while c < query.len()
            invariant
                c <= query@.len(),
                forall|t: int| 0 <= t < c ==> coord_ok(#[trigger] query@[t]),
            decreases query@.len() - c,
        {
            let x = query[c];
            if x < -crate::distance::COORD_LIMIT || x > crate::distance::COORD_LIMIT {
                return Err(BackendError::InvalidArgument);
            }
            c = c + 1;
        }
        if self.index.nodes.len() > 0 {
            let dim = self.index.nodes[0].vector.len();
            if query.len() != dim {
                return Err(BackendError::InvalidArgument);
            }
        }
        Ok(self.index.search(query, k))
    }

    /// Reconstruct a backend from the byte image of its log: the
    /// records are replayed into a fresh index and the bytes are kept
    /// as the backend's log, so the result satisfies the backend
    /// invariant.
    pub fn from_log(bytes: &Vec<u8>, m: usize, ef_construction: usize) -> (r: Result<
        MyVectorDb,
        ReplayError,
    >)
        requires
            2 <= m <= 0x1000_0000,
            1 <= ef_construction <= 0x1000_0000,
        ensures
            match r {
                Ok(db) => {
                    &&& db.wf()
                    &&& db.wal.log@ == bytes@
                    &&& db.index.m == m
                    &&& db.index.ef_construction == ef_construction
                    &&& spec_parse_stream(bytes@) is Some
                    &&& db.index.nodes@.len() == spec_parse_stream(bytes@)->Some_0.len()
                },
                Err(ReplayError::Corrupt) => spec_parse_stream(bytes@) is None,
                Err(_) => spec_parse_stream(bytes@) is Some && !entries_replayable(
                    spec_parse_stream(bytes@)->Some_0,
                ),
            },
    {
        let index = match replay_wal(bytes, m, ef_construction) {
            Err(e) => {
                return Err(e);
            },
            Ok(h) => h,
        };
        let log = crate::wal::copy_range(bytes, 0, bytes.len());
        proof {
            assert(log@ =~= bytes@);
        }
        let db = MyVectorDb { index, wal: Wal { log } };
        proof {
            let es = spec_parse_stream(bytes@)->Some_0;
            assert forall|i: int|
                0 <= i < es.len() implies (#[trigger] es[i]).0 == OpType::Insert && es[i].1
                == db.index.nodes@[i].id && es[i].2 == db.index.nodes@[i].vector@ by {}
            assert(db.wf());
        }
        Ok(db)
    }

    /// A point-in-time image of the index.
    pub fn snapshot(&self) -> (r: Vec<u8>)
        ensures
            r@ == spec_save(spec_model(self.index)),
    {
        self.index.save_snapshot_bytes()
    }
}

/// Rebuild an index by replaying a write-ahead log from its first
/// byte. Damage, the reserved delete opcode and unusable records are
/// all errors: nothing is silently dropped. Every replay of a readable
/// log of admissible inserts yields a structurally valid index holding
/// exactly the logged records.
#[verifier::loop_isolation(false)]
pub fn replay_wal(bytes: &Vec<u8>, m: usize, ef_construction: usize) -> (r: Result<
    Hnsw,
    ReplayError,
>)
    requires
        2 <= m <= 0x1000_0000,
        1 <= ef_construction <= 0x1000_0000,
    ensures
        match r {
            Ok(h) => {
                &&& spec_parse_stream(bytes@) is Some
                &&& entries_replayable(spec_parse_stream(bytes@)->Some_0)
                &&& h.wf()
                &&& h.m == m
                &&& h.ef_construction == ef_construction
                &&& h.nodes@.len() == spec_parse_stream(bytes@)->Some_0.len()
                &&& forall|i: int|
                    0 <= i < h.nodes@.len() ==> (#[trigger] h.nodes@[i]).id == spec_parse_stream(
                        bytes@,
                    )->Some_0[i].1 && h.nodes@[i].vector@ == spec_parse_stream(bytes@)->Some_0[i].2
            },
            Err(ReplayError::Corrupt) => spec_parse_stream(bytes@) is None,
            Err(_) => spec_parse_stream(bytes@) is Some && !entries_replayable(
                spec_parse_stream(bytes@)->Some_0,
            ),
        },
{
    let entries = match read_all_bytes(bytes) {
        Err(_) => {
            return Err(ReplayError::Corrupt);
        },
        Ok(es) => es,
    };
    let ghost es = spec_parse_stream(bytes@)->Some_0;
    let mut h = Hnsw::new(m, ef_construction);
    let mut i: usize = 0;
    let n = entries.len();
    while i < n
        invariant
            n == entries@.len(),
            i <= n,
            h.wf(),
            h.m == m,
            h.ef_construction == ef_construction,
            h.nodes@.len() == i,
            forall|t: int|
                0 <= t < i ==> (#[trigger] h.nodes@[t]).id == es[t].1 && h.nodes@[t].vector@
                    == es[t].2,
            forall|t: int| 0 <= t < i ==> (#[trigger] es[t]).0 == OpType::Insert,
            forall|t: int| 0 <= t < i ==> vector_admissible((#[trigger] es[t]).2),
            forall|t: int| 0 <= t < i ==> (#[trigger] es[t]).2.len() == es[0].2.len(),
        decreases n - i,
    {
        let e = &entries[i];
        match e.op {
            OpType::Delete => {
                proof {
                    assert(es[i as int].0 == OpType::Delete);
                }
                return Err(ReplayError::Delete);
            },
            OpType::Insert => {},
        }
        if e.vector.len() == 0 || e.vector.len() >= 0x0800_0000 {
            return Err(ReplayError::Invalid);
        }
        let mut c: usize = 0;
        while c < e.vector.len()
            invariant
                c <= e.vector@.len(),
                forall|t: int| 0 <= t < c ==> coord_ok(#[trigger] e.vector@[t]),
            decreases e.vector@.len() - c,
        {
            let x = e.vector[c];
            if x < -crate::distance::COORD_LIMIT || x > crate::distance::COORD_LIMIT {
                proof {
                    assert(!coords_ok(es[i as int].2));
                }
                return Err(ReplayError::Invalid);
            }
            c = c + 1;
        }
        if i > 0 {
            let dim = h.nodes[0].vector.len();
            if e.vector.len() != dim {
                proof {
                    assert(es[i as int].2.len() != es[0].2.len());
                }
                return Err(ReplayError::Invalid);
            }
        }
        let mut dup = false;
        let mut t: usize = 0;
        while t < i
            invariant
                t <= i <= n,
                i == h.nodes@.len(),
                !dup ==> forall|w: int| 0 <= w < t ==> (#[trigger] h.nodes@[w]).id != e.vector_id,
                dup ==> exists|w: int| 0 <= w < i && (#[trigger] es[w]).1 == e.vector_id,
            decreases i - t,
        {
            if h.nodes[t].id == e.vector_id {
                dup = true;
                proof {
                    assert(es[t as int].1 == e.vector_id);
                }
            }
            t = t + 1;
        }
        if dup {
            proof {
                let w = choose|w: int| 0 <= w < i && (#[trigger] es[w]).1 == e.vector_id;
                assert(es[w].1 == es[i as int].1);
            }
            return Err(ReplayError::Invalid);
        }
        proof {
            assert(!h.contains_id(e.vector_id));
        }
        let vec_copy = crate::hnsw::clone_i64_vec(&e.vector);
        h.insert(e.vector_id, vec_copy);
        i = i + 1;
    }
    proof {
        assert forall|a: int, b: int| 0 <= a < b < es.len() implies (#[trigger] es[a]).1 != (
        #[trigger] es[b]).1 by {
            assert(h.nodes@[a].id == es[a].1);
            assert(h.nodes@[b].id == es[b].1);
        }
        assert(entries_replayable(es));
    }
    Ok(h)
}


} // verus!