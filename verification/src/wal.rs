//! The write-ahead log: a stream of framed, checksummed records.
//!
//! On disk a record is `CRC32 (4B LE) ++ payload length (8B LE) ++
//! payload`, where the payload is a self-describing binary encoding of
//! `{op, id, vector}`; the CRC covers the payload only. This module
//! owns the codec and the parser; the surrounding process owns the
//! file, appending exactly the bytes produced here.

use vstd::prelude::*;
use vstd::bytes::*;
use vstd::seq_lib::*;

verus! {

/// Operation tag of a log record. `Delete` is reserved: the log can
/// frame it but no index path applies it.
#[derive(Clone, Copy, PartialEq, Eq, Structural, Debug)]
pub enum OpType {
    Insert,
    Delete,
}

/// One log record: the operation, the record id, and the coordinates.
#[derive(Debug, Clone)]
pub struct WalEntry {
    pub op: OpType,
    pub vector_id: u32,
    pub vector: Vec<i64>,
}

/// Why reading a log failed: a short header or payload, a checksum
/// mismatch, or a payload that does not decode.
#[derive(Clone, Copy, PartialEq, Eq, Structural, Debug)]
pub enum WalError {
    Truncated,
    CrcMismatch,
    Malformed,
}

/// The CRC-32 checksum, named but not defined here: it is computed by
/// an outside routine and depends on the bytes alone.
pub uninterp spec fn crc32_of(data: Seq<u8>) -> u32;

/// Relies on crc32fast::hash: the CRC-32 (IEEE) of the bytes, a
/// function of the bytes alone.
#[verifier::external_body]
fn crc32(data: &Vec<u8>) -> (r: u32)
    ensures
        r == crc32_of(data@),
{
    crc32fast::hash(data.as_slice())
}

pub open spec fn op_code(op: OpType) -> u32 {
    match op {
        OpType::Insert => 0,
        OpType::Delete => 1,
    }
}

/// The coordinates, each as eight little-endian bytes of its
/// two's-complement image, first `n` of them.
pub open spec fn spec_encode_coords(v: Seq<i64>, n: int) -> Seq<u8>
    decreases n,
{
    if n <= 0 {
        Seq::empty()
    } else {
        spec_encode_coords(v, n - 1) + spec_u64_to_le_bytes(v[n - 1] as u64)
    }
}

/// The payload: op tag, id, coordinate count, coordinates, all
/// little-endian.
pub open spec fn spec_encode_payload(op: OpType, id: u32, v: Seq<i64>) -> Seq<u8> {
    spec_u32_to_le_bytes(op_code(op)) + spec_u32_to_le_bytes(id) + spec_u64_to_le_bytes(
        v.len() as u64,
    ) + spec_encode_coords(v, v.len() as int)
}

/// A framed record: checksum, payload length, payload.
pub open spec fn spec_frame(payload: Seq<u8>) -> Seq<u8> {
    spec_u32_to_le_bytes(crc32_of(payload)) + spec_u64_to_le_bytes(payload.len() as u64) + payload
}

pub open spec fn spec_encode_record(op: OpType, id: u32, v: Seq<i64>) -> Seq<u8> {
    spec_frame(spec_encode_payload(op, id, v))
}

/// What a payload decodes to, if anything: the tag must be known, and
/// the length field must account for exactly the remaining bytes.
pub open spec fn spec_decode_payload(p: Seq<u8>) -> Option<(OpType, u32, Seq<i64>)> {
    if p.len() < 16 {
        None
    } else {
        let opc = spec_u32_from_le_bytes(p.subrange(0, 4));
        let id = spec_u32_from_le_bytes(p.subrange(4, 8));
        let n = spec_u64_from_le_bytes(p.subrange(8, 16)) as int;
        if opc > 1 {
            None
        } else if p.len() - 16 != n * 8 {
            None
        } else {
            let op = if opc == 0 {
                OpType::Insert
            } else {
                OpType::Delete
            };
            Some(
                (
                    op,
                    id,
                    Seq::new(
                        n as nat,
                        |i: int| spec_u64_from_le_bytes(p.subrange(16 + 8 * i, 24 + 8 * i)) as i64,
                    ),
                ),
            )
        }
    }
}

/// What a whole stream parses to, if anything: record after record
/// until clean end of input; a short header, a short payload, a bad
/// checksum or an undecodable payload sinks the whole parse.
pub open spec fn spec_parse_stream(bytes: Seq<u8>) -> Option<Seq<(OpType, u32, Seq<i64>)>>
    decreases bytes.len(),
{
    if bytes.len() == 0 {
        Some(Seq::empty())
    } else if bytes.len() < 12 {
        None
    } else {
        let crc = spec_u32_from_le_bytes(bytes.subrange(0, 4));
        let plen = spec_u64_from_le_bytes(bytes.subrange(4, 12)) as int;
        if bytes.len() - 12 < plen {
            None
        } else {
            let payload = bytes.subrange(12, 12 + plen);
            if crc != crc32_of(payload) {
                None
            } else {
                match spec_decode_payload(payload) {
                    None => None,
                    Some(t) => match spec_parse_stream(bytes.skip(12 + plen)) {
                        None => None,
                        Some(rest) => Some(seq![t] + rest),
                    },
                }
            }
        }
    }
}

proof fn lemma_coords_len(v: Seq<i64>, n: int)
    requires
        0 <= n <= v.len(),
    ensures
        spec_encode_coords(v, n).len() == 8 * n,
    decreases n,
{
    lemma_auto_spec_u64_to_from_le_bytes();
    if n > 0 {
        lemma_coords_len(v, n - 1);
    }
}

proof fn lemma_coords_at(v: Seq<i64>, n: int, i: int)
    requires
        0 <= i < n <= v.len(),
    ensures
        spec_encode_coords(v, n).subrange(8 * i, 8 * i + 8) == spec_u64_to_le_bytes(v[i] as u64),
    decreases n,
{
    lemma_auto_spec_u64_to_from_le_bytes();
    lemma_coords_len(v, n);
    lemma_coords_len(v, n - 1);
    if i == n - 1 {
        assert(spec_encode_coords(v, n).subrange(8 * i, 8 * i + 8) =~= spec_u64_to_le_bytes(
            v[i] as u64,
        ));
    } else {
        lemma_coords_at(v, n - 1, i);
        assert(spec_encode_coords(v, n).subrange(8 * i, 8 * i + 8) =~= spec_encode_coords(
            v,
            n - 1,
        ).subrange(8 * i, 8 * i + 8));
    }
}

/// The payload codec round-trips: decoding an encoded record gives the
/// record back.
pub proof fn lemma_payload_round_trip(op: OpType, id: u32, v: Seq<i64>)
    requires
        v.len() < 0x0800_0000,
    ensures
        spec_decode_payload(spec_encode_payload(op, id, v)) == Some((op, id, v)),
{
    lemma_auto_spec_u32_to_from_le_bytes();
    lemma_auto_spec_u64_to_from_le_bytes();
    lemma_coords_len(v, v.len() as int);
    let p = spec_encode_payload(op, id, v);
    assert(p.len() == 16 + 8 * v.len());
    assert(p.subrange(0, 4) =~= spec_u32_to_le_bytes(op_code(op)));
    assert(p.subrange(4, 8) =~= spec_u32_to_le_bytes(id));
    assert(p.subrange(8, 16) =~= spec_u64_to_le_bytes(v.len() as u64));
    let opc = spec_u32_from_le_bytes(p.subrange(0, 4));
    assert(opc == op_code(op));
    assert(opc <= 1);
    let n = spec_u64_from_le_bytes(p.subrange(8, 16)) as int;
    assert(n == v.len());
    let m = spec_decode_payload(p);
    assert(m is Some);
    let (op2, id2, v2) = m->Some_0;
    assert(op2 == op && id2 == id);
    assert forall|i: int| 0 <= i < v.len() implies v2[i] == v[i] by {
        lemma_coords_at(v, v.len() as int, i);
        assert(p.subrange(16 + 8 * i, 24 + 8 * i) =~= spec_encode_coords(
            v,
            v.len() as int,
        ).subrange(8 * i, 8 * i + 8));
        let x = v[i];
        assert(spec_u64_from_le_bytes(spec_u64_to_le_bytes(x as u64)) == x as u64);
        assert((x as u64) as i64 == x) by (bit_vector);
    }
    assert(v2 =~= v);
}

/// Appending one well-formed record to a stream that parses extends
/// the parse by exactly that record.
pub proof fn lemma_parse_snoc(bytes: Seq<u8>, op: OpType, id: u32, v: Seq<i64>)
    requires
        spec_parse_stream(bytes) is Some,
        v.len() < 0x0800_0000,
    ensures
        spec_parse_stream(bytes + spec_encode_record(op, id, v)) == Some(
            spec_parse_stream(bytes)->Some_0.push((op, id, v)),
        ),
    decreases bytes.len(),
{
    lemma_auto_spec_u32_to_from_le_bytes();
    lemma_auto_spec_u64_to_from_le_bytes();
    lemma_coords_len(v, v.len() as int);
    lemma_payload_round_trip(op, id, v);
    let payload = spec_encode_payload(op, id, v);
    let enc = spec_encode_record(op, id, v);
    assert(payload.len() == 16 + 8 * v.len());
    assert(enc.len() == 12 + payload.len());
    let total = bytes + enc;
    if bytes.len() == 0 {
        assert(total =~= enc);
        assert(total.subrange(0, 4) =~= spec_u32_to_le_bytes(crc32_of(payload)));
        assert(total.subrange(4, 12) =~= spec_u64_to_le_bytes(payload.len() as u64));
        let plen = spec_u64_from_le_bytes(total.subrange(4, 12)) as int;
        assert(plen == payload.len());
        assert(total.subrange(12, 12 + plen) =~= payload);
        assert(total.skip(12 + plen) =~= Seq::<u8>::empty());
        assert(spec_parse_stream(total.skip(12 + plen)) == Some(
            Seq::<(OpType, u32, Seq<i64>)>::empty(),
        ));
        assert(spec_parse_stream(total) == Some(
            seq![(op, id, v)] + Seq::<(OpType, u32, Seq<i64>)>::empty(),
        ));
        assert(seq![(op, id, v)] + Seq::<(OpType, u32, Seq<i64>)>::empty() =~= spec_parse_stream(
            bytes,
        )->Some_0.push((op, id, v)));
    } else {
        assert(bytes.len() >= 12);
        assert(total.subrange(0, 4) =~= bytes.subrange(0, 4));
        assert(total.subrange(4, 12) =~= bytes.subrange(4, 12));
        let plen0 = spec_u64_from_le_bytes(bytes.subrange(4, 12)) as int;
        assert(bytes.len() - 12 >= plen0);
        assert(total.len() - 12 >= plen0);
        assert(total.subrange(12, 12 + plen0) =~= bytes.subrange(12, 12 + plen0));
        assert(total.skip(12 + plen0) =~= bytes.skip(12 + plen0) + enc);
        lemma_parse_snoc(bytes.skip(12 + plen0), op, id, v);
        let t0 = spec_decode_payload(bytes.subrange(12, 12 + plen0))->Some_0;
        let rest0 = spec_parse_stream(bytes.skip(12 + plen0))->Some_0;
        assert(spec_parse_stream(bytes) == Some(seq![t0] + rest0));
        assert(spec_parse_stream(total) == Some(seq![t0] + rest0.push((op, id, v))));
        assert(seq![t0] + rest0.push((op, id, v)) =~= (seq![t0] + rest0).push((op, id, v)));
    }
}

/// The model of a record list: each entry as an (op, id, coords)
/// triple.
pub open spec fn spec_entries(s: Seq<WalEntry>) -> Seq<(OpType, u32, Seq<i64>)> {
    s.map_values(|e: WalEntry| (e.op, e.vector_id, e.vector@))
}

/// Encode the payload of one record.
fn encode_payload(op: OpType, vector_id: u32, vector: &Vec<i64>) -> (r: Vec<u8>)
    requires
        vector@.len() < 0x0800_0000,
    ensures
        r@ == spec_encode_payload(op, vector_id, vector@),
        r@.len() == 16 + 8 * vector@.len(),
{
    proof {
        lemma_auto_spec_u32_to_from_le_bytes();
        lemma_auto_spec_u64_to_from_le_bytes();
    }
    let opc: u32 = match op {
        OpType::Insert => 0,
        OpType::Delete => 1,
    };
    let mut r = u32_to_le_bytes(opc);
    let mut id_bytes = u32_to_le_bytes(vector_id);
    let mut len_bytes = u64_to_le_bytes(vector.len() as u64);
    r.append(&mut id_bytes);
    r.append(&mut len_bytes);
    let ghost head = r@;
    let mut i: usize = 0;
    while i < vector.len()
        invariant
            i <= vector@.len(),
            vector@.len() < 0x0800_0000,
            head == spec_u32_to_le_bytes(op_code(op)) + spec_u32_to_le_bytes(vector_id)
                + spec_u64_to_le_bytes(vector@.len() as u64),
            r@ == head + spec_encode_coords(vector@, i as int),
            r@.len() == 16 + 8 * i,
        decreases vector@.len() - i,
    {
        let mut cb = u64_to_le_bytes(vector[i] as u64);
        r.append(&mut cb);
        proof {
            assert(spec_encode_coords(vector@, i + 1) == spec_encode_coords(vector@, i as int)
                + spec_u64_to_le_bytes(vector@[i as int] as u64));
            assert(r@ == head + spec_encode_coords(vector@, i + 1));
        }
        i = i + 1;
    }
    proof {
        assert(r@ == spec_encode_payload(op, vector_id, vector@));
    }
    r
}

/// Frame one record: checksum, length, payload.
pub fn encode_record(entry: &WalEntry) -> (r: Vec<u8>)
    requires
        entry.vector@.len() < 0x0800_0000,
    ensures
        r@ == spec_encode_record(entry.op, entry.vector_id, entry.vector@),
{
    proof {
        lemma_auto_spec_u32_to_from_le_bytes();
        lemma_auto_spec_u64_to_from_le_bytes();
    }
    let payload = encode_payload(entry.op, entry.vector_id, &entry.vector);
    let checksum = crc32(&payload);
    let mut r = u32_to_le_bytes(checksum);
    let mut len_bytes = u64_to_le_bytes(payload.len() as u64);
    r.append(&mut len_bytes);
    let mut p = payload;
    r.append(&mut p);
    r
}

/// Copy `bytes[start .. start + count]`.
pub(crate) fn copy_range(bytes: &Vec<u8>, start: usize, count: usize) -> (r: Vec<u8>)
    requires
        start + count <= bytes@.len(),
    ensures
        r@ == bytes@.subrange(start as int, start as int + count as int),
{
    let total = bytes.len();
    let mut r: Vec<u8> = Vec::new();
    let mut i: usize = 0;
    while i < count
        invariant
            total == bytes@.len(),
            start + count <= total,
            i <= count,
            r@ == bytes@.subrange(start as int, start as int + i as int),
        decreases count - i,
    {
        r.push(bytes[start + i]);
        proof {
            assert(r@ =~= bytes@.subrange(start as int, start as int + i + 1));
        }
        i = i + 1;
    }
    r
}

/// Decode one payload.
fn decode_payload(p: &Vec<u8>) -> (r: Option<WalEntry>)
    ensures
        match r {
            Some(e) => spec_decode_payload(p@) == Some((e.op, e.vector_id, e.vector@)),
            None => spec_decode_payload(p@) is None,
        },
{
    proof {
        lemma_auto_spec_u32_to_from_le_bytes();
        lemma_auto_spec_u64_to_from_le_bytes();
    }
    if p.len() < 16 {
        return None;
    }
    let opc_bytes = copy_range(p, 0, 4);
    let opc = u32_from_le_bytes(opc_bytes.as_slice());
    let id_bytes = copy_range(p, 4, 4);
    let id = u32_from_le_bytes(id_bytes.as_slice());
    let n_bytes = copy_range(p, 8, 8);
    let n64 = u64_from_le_bytes(n_bytes.as_slice());
    if opc > 1 {
        return None;
    }
    let rest = p.len() - 16;
    if n64 > (rest / 8) as u64 || rest % 8 != 0 {
        proof {
            if p@.len() - 16 == (n64 as int) * 8 {
                assert(false);
            }
        }
        return None;
    }
    let n = n64 as usize;
    if rest / 8 != n {
        proof {
            if p@.len() - 16 == (n64 as int) * 8 {
                assert(false);
            }
        }
        return None;
    }
    proof {
        assert(p@.len() - 16 == (n64 as int) * 8);
    }
    let op = if opc == 0 {
        OpType::Insert
    } else {
        OpType::Delete
    };
    let mut coords: Vec<i64> = Vec::new();
    let mut i: usize = 0;
    while i < n
        invariant
            i <= n,
            p@.len() == 16 + 8 * n,
            p@.len() <= usize::MAX,
            coords@.len() == i,
            forall|t: int|
                0 <= t < i ==> coords@[t] == spec_u64_from_le_bytes(
                    p@.subrange(16 + 8 * t, 24 + 8 * t),
                ) as i64,
        decreases n - i,
    {
        let cb = copy_range(p, 16 + 8 * i, 8);
        let c = u64_from_le_bytes(cb.as_slice());
        coords.push(c as i64);
        i = i + 1;
    }
    let e = WalEntry { op, vector_id: id, vector: coords };
    proof {
        let m = spec_decode_payload(p@);
        assert(m is Some);
        assert(e.vector@ =~= m->Some_0.2);
    }
    Some(e)
}

/// The in-memory image of a log: exactly the bytes that stand, or will
/// stand, in the log file.
pub struct Wal {
    pub log: Vec<u8>,
}

impl Wal {
    /// An empty log.
    pub fn new() -> (r: Wal)
        ensures
            r.log@.len() == 0,
            spec_parse_stream(r.log@) == Some(Seq::<(OpType, u32, Seq<i64>)>::empty()),
    {
        Wal { log: Vec::new() }
    }

    /// Append one framed record, returning the frame so the caller can
    /// persist exactly these bytes before relying on them.
    pub fn append(&mut self, entry: &WalEntry) -> (frame: Vec<u8>)
        requires
            entry.vector@.len() < 0x0800_0000,
        ensures
            frame@ == spec_encode_record(entry.op, entry.vector_id, entry.vector@),
            final(self).log@ == old(self).log@ + frame@,
    {
        let frame = encode_record(entry);
        let mut copy = copy_range(&frame, 0, frame.len());
        proof {
            assert(copy@ =~= frame@);
        }
        self.log.append(&mut copy);
        frame
    }

    /// Parse the whole log from the start.
    pub fn read_all(&self) -> (r: Result<Vec<WalEntry>, WalError>)
        ensures
            match r {
                Ok(es) => spec_parse_stream(self.log@) == Some(spec_entries(es@)),
                Err(_) => spec_parse_stream(self.log@) is None,
            },
    {
        read_all_bytes(&self.log)
    }
}

/// Parse a byte stream of framed records; any mid-stream damage is an
/// error, never a silently shortened result.
#[verifier::loop_isolation(false)]
pub fn read_all_bytes(bytes: &Vec<u8>) -> (r: Result<Vec<WalEntry>, WalError>)
    ensures
        match r {
            Ok(es) => spec_parse_stream(bytes@) == Some(spec_entries(es@)),
            Err(_) => spec_parse_stream(bytes@) is None,
        },
{
    proof {
        lemma_auto_spec_u32_to_from_le_bytes();
        lemma_auto_spec_u64_to_from_le_bytes();
    }
    let mut entries: Vec<WalEntry> = Vec::new();
    let mut pos: usize = 0;
    let n = bytes.len();
    proof {
        assert(bytes@.skip(0) =~= bytes@);
        let po = spec_parse_stream(bytes@);
        if po is Some {
            let rest = po->Some_0;
            assert(spec_entries(entries@) + rest =~= rest);
        }
    }
    while pos < n
        invariant
            pos <= n,
            spec_parse_stream(bytes@) == match spec_parse_stream(bytes@.skip(pos as int)) {
                None => None::<Seq<(OpType, u32, Seq<i64>)>>,
                Some(rest) => Some(spec_entries(entries@) + rest),
            },
        decreases n - pos,
    {
        let ghost tail = bytes@.skip(pos as int);
        let remaining = n - pos;
        if remaining < 12 {
            proof {
                assert(tail.len() == remaining);
                assert(spec_parse_stream(tail) is None);
            }
            return Err(WalError::Truncated);
        }
        let crc_bytes = copy_range(bytes, pos, 4);
        let expected_crc = u32_from_le_bytes(crc_bytes.as_slice());
        let len_bytes = copy_range(bytes, pos + 4, 8);
        let plen64 = u64_from_le_bytes(len_bytes.as_slice());
        proof {
            assert(crc_bytes@ =~= tail.subrange(0, 4));
            assert(len_bytes@ =~= tail.subrange(4, 12));
        }
        if plen64 > (remaining - 12) as u64 {
            proof {
                assert(spec_parse_stream(tail) is None);
            }
            return Err(WalError::Truncated);
        }
        let plen = plen64 as usize;
        let payload = copy_range(bytes, pos + 12, plen);
        proof {
            assert(payload@ =~= tail.subrange(12, 12 + plen64 as int));
        }
        let actual_crc = crc32(&payload);
        if actual_crc != expected_crc {
            proof {
                assert(spec_parse_stream(tail) is None);
            }
            return Err(WalError::CrcMismatch);
        }
        let decoded = decode_payload(&payload);
        match decoded {
            None => {
                proof {
                    assert(spec_parse_stream(tail) is None);
                }
                return Err(WalError::Malformed);
            },
            Some(e) => {
                let ghost e_model = (e.op, e.vector_id, e.vector@);
                let ghost entries0 = entries@;
                entries.push(e);
                proof {
                    assert(spec_parse_stream(tail) == match spec_parse_stream(
                        tail.skip(12 + plen64 as int),
                    ) {
                        None => None::<Seq<(OpType, u32, Seq<i64>)>>,
                        Some(rest) => Some(seq![e_model] + rest),
                    });
                    assert(tail.skip(12 + plen64 as int) =~= bytes@.skip(
                        pos + 12 + plen64 as int,
                    ));
                    assert(spec_entries(entries@) =~= spec_entries(entries0).push(e_model));
                    assert forall|rest: Seq<(OpType, u32, Seq<i64>)>|
                        true implies spec_entries(entries0) + (seq![e_model] + rest)
                        =~= spec_entries(entries@) + rest by {}
                }
                pos = pos + 12 + plen;
            },
        }
    }
    proof {
        assert(bytes@.skip(pos as int) =~= Seq::<u8>::empty());
        assert(spec_parse_stream(bytes@.skip(pos as int)) == Some(
            Seq::<(OpType, u32, Seq<i64>)>::empty(),
        ));
        assert(spec_entries(entries@) + Seq::<(OpType, u32, Seq<i64>)>::empty() =~= spec_entries(
            entries@,
        ));
    }
    Ok(entries)
}

} // verus!
