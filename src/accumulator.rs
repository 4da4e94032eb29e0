//! Ring-buffer snapshots of one attested batch: a fixed header followed by a
//! count-prefixed sequence of length-prefixed raw update records. Integers are
//! little-endian, as in the Borsh encoding that the source chain writes.
use vstd::prelude::*;
use crate::bytes::{
    le_bytes, le_value, lemma_le_bytes_value, lemma_le_value_bound, lemma_radix_small, read_le,
};

verus! {

/// Bytes before the first record: magic (4), slot (8), ring size (4), count (4).
pub const SNAPSHOT_HEADER_LEN: usize = 20;

#[derive(Clone, Debug)]
pub struct AccumulatorMessages {
    pub magic: [u8; 4],
    pub slot: u64,
    pub ring_size: u32,
    pub messages: Vec<Vec<u8>>,
}

/// A snapshot whose length prefixes do not match its bytes.
#[derive(Clone, Copy, Debug, PartialEq, Eq, Structural)]
pub struct CorruptError;

/// A ring of size zero, which has no positions.
#[derive(Clone, Copy, Debug, PartialEq, Eq, Structural)]
pub struct InvalidRingConfiguration;

/// One attested batch, as envelope bytes or as an already decoded snapshot.
#[derive(Clone, Debug)]
pub enum Update {
    Vaa(Vec<u8>),
    AccumulatorMessages(AccumulatorMessages),
}

pub open spec fn views(v: Seq<Vec<u8>>) -> Seq<Seq<u8>> {
    v.map_values(|x: Vec<u8>| x@)
}

/// The `count` records that `s` holds, each a 4-byte length then that many
/// bytes, with nothing left over; `None` where `s` is not such a sequence.
pub open spec fn records_from(s: Seq<u8>, count: nat) -> Option<Seq<Seq<u8>>>
    decreases count,
{
    if count == 0 {
        if s.len() == 0 {
            Some(Seq::empty())
        } else {
            None
        }
    } else if s.len() < 4 {
        None
    } else {
        let n = le_value(s.subrange(0, 4)) as int;
        if s.len() - 4 < n {
            None
        } else {
            match records_from(s.subrange(4 + n, s.len() as int), (count - 1) as nat) {
                Some(rest) => Some(seq![s.subrange(4, 4 + n)] + rest),
                None => None,
            }
        }
    }
}

/// The records of snapshot bytes `b`, or `None` where `b` is corrupt.
pub open spec fn snapshot_records(b: Seq<u8>) -> Option<Seq<Seq<u8>>> {
    if b.len() < SNAPSHOT_HEADER_LEN {
        None
    } else {
        records_from(b.subrange(20, b.len() as int), le_value(b.subrange(16, 20)))
    }
}

pub open spec fn prepend(p: Seq<Seq<u8>>, o: Option<Seq<Seq<u8>>>) -> Option<Seq<Seq<u8>>> {
    match o {
        Some(rest) => Some(p + rest),
        None => None,
    }
}

/// The encoding of `msgs`: each record as its 4-byte length, then its bytes.
pub open spec fn records_bytes(msgs: Seq<Seq<u8>>) -> Seq<u8>
    decreases msgs.len(),
{
    if msgs.len() == 0 {
        Seq::empty()
    } else {
        le_bytes(msgs[0].len(), 4) + msgs[0] + records_bytes(msgs.drop_first())
    }
}

/// The snapshot that carries `magic`, `slot`, `ring_size` and `msgs`.
pub open spec fn snapshot_bytes(magic: Seq<u8>, slot: u64, ring_size: u32, msgs: Seq<Seq<u8>>) -> Seq<u8> {
    magic + le_bytes(slot as nat, 8) + le_bytes(ring_size as nat, 4) + le_bytes(msgs.len(), 4)
        + records_bytes(msgs)
}

#[verifier::rlimit(20)]
proof fn lemma_records_round_trip(msgs: Seq<Seq<u8>>)
    requires
        forall|i: int| 0 <= i < msgs.len() ==> (#[trigger] msgs[i]).len() < 0x1_0000_0000,
    ensures
        records_from(records_bytes(msgs), msgs.len()) == Some(msgs),
    decreases msgs.len(),
{
    if msgs.len() > 0 {
        let m0 = msgs[0];
        let tail = msgs.drop_first();
        assert forall|i: int| 0 <= i < tail.len() implies (#[trigger] tail[i]).len() < 0x1_0000_0000 by {
            assert(tail[i] == msgs[i + 1]);
        }
        lemma_records_round_trip(tail);
        lemma_radix_small();
        lemma_le_bytes_value(m0.len(), 4);
        let s = records_bytes(msgs);
        let n = m0.len() as int;
        assert(s.subrange(0, 4) =~= le_bytes(m0.len(), 4));
        assert(s.subrange(4, 4 + n) =~= m0);
        assert(s.subrange(4 + n, s.len() as int) =~= records_bytes(tail));
        assert(seq![m0] + tail =~= msgs);
    }
}

/// Snapshot bytes built from any 4-byte magic, slot, ring size and records
/// (each record and the count within the 4-byte length fields) decode back to
/// exactly those records, and their header fields read back unchanged.
#[verifier::rlimit(20)]
pub proof fn lemma_snapshot_round_trip(magic: Seq<u8>, slot: u64, ring_size: u32, msgs: Seq<Seq<u8>>)
    requires
        magic.len() == 4,
        msgs.len() < 0x1_0000_0000,
        forall|i: int| 0 <= i < msgs.len() ==> (#[trigger] msgs[i]).len() < 0x1_0000_0000,
    ensures
        snapshot_records(snapshot_bytes(magic, slot, ring_size, msgs)) == Some(msgs),
        snapshot_bytes(magic, slot, ring_size, msgs).subrange(0, 4) == magic,
        le_value(snapshot_bytes(magic, slot, ring_size, msgs).subrange(4, 12)) == slot,
        le_value(snapshot_bytes(magic, slot, ring_size, msgs).subrange(12, 16)) == ring_size,
{
    lemma_radix_small();
    lemma_le_bytes_value(slot as nat, 8);
    lemma_le_bytes_value(ring_size as nat, 4);
    lemma_le_bytes_value(msgs.len(), 4);
    lemma_records_round_trip(msgs);
    let b = snapshot_bytes(magic, slot, ring_size, msgs);
    assert(b.subrange(0, 4) =~= magic);
    assert(b.subrange(4, 12) =~= le_bytes(slot as nat, 8));
    assert(b.subrange(12, 16) =~= le_bytes(ring_size as nat, 4));
    assert(b.subrange(16, 20) =~= le_bytes(msgs.len(), 4));
    assert(b.subrange(20, b.len() as int) =~= records_bytes(msgs));
}

/// A copy of `bytes[start..end]`.
fn copy_range(bytes: &[u8], start: usize, end: usize) -> (r: Vec<u8>)
    requires
        start <= end <= bytes@.len(),
    ensures
        r@ == bytes@.subrange(start as int, end as int),
{
    let mut out: Vec<u8> = Vec::new();
    let mut i: usize = start;
    while i < end
        invariant
            start <= i <= end <= bytes@.len(),
            out@ == bytes@.subrange(start as int, i as int),
        decreases end - i,
    {
        out.push(bytes[i]);
        i = i + 1;
        assert(out@ =~= bytes@.subrange(start as int, i as int));
    }
    out
}

impl AccumulatorMessages {
    /// Decodes snapshot bytes. Every byte must be accounted for by the header
    /// and the records that its count announces.
    pub fn try_from_slice(bytes: &[u8]) -> (r: Result<AccumulatorMessages, CorruptError>)
        ensures
            r is Ok <==> snapshot_records(bytes@) is Some,
            r matches Ok(m) ==> {
                &&& m.magic@ == bytes@.subrange(0, 4)
                &&& m.slot as nat == le_value(bytes@.subrange(4, 12))
                &&& m.ring_size as nat == le_value(bytes@.subrange(12, 16))
                &&& Some(views(m.messages@)) == snapshot_records(bytes@)
            },
    {
        let len = bytes.len();
        if len < SNAPSHOT_HEADER_LEN {
            return Err(CorruptError);
        }
        let mut magic: [u8; 4] = [0u8; 4];
        let mut k: usize = 0;
        while k < 4
            invariant
                k <= 4,
                len == bytes@.len() >= 20,
                magic@.len() == 4,
                forall|j: int| 0 <= j < k ==> magic@[j] == bytes@[j],
            decreases 4 - k,
        {
            magic[k] = bytes[k];
            k = k + 1;
        }
        assert(magic@ =~= bytes@.subrange(0, 4));
        let slot = read_le(bytes, 4, 8);
        proof {
            lemma_radix_small();
            lemma_le_value_bound(bytes@.subrange(12, 16));
            lemma_le_value_bound(bytes@.subrange(16, 20));
        }
        let ring_size = read_le(bytes, 12, 4) as u32;
        let count = read_le(bytes, 16, 4);
        let ghost whole = bytes@.subrange(20, len as int);
        let mut messages: Vec<Vec<u8>> = Vec::new();
        let mut pos: usize = SNAPSHOT_HEADER_LEN;
        let mut i: u64 = 0;
        while i < count
            invariant
                len == bytes@.len(),
                whole == bytes@.subrange(20, len as int),
                20 <= pos <= len,
                i <= count,
                count as nat == le_value(bytes@.subrange(16, 20)),
                records_from(whole, count as nat) == prepend(
                    views(messages@),
                    records_from(bytes@.subrange(pos as int, len as int), (count - i) as nat),
                ),
            decreases count - i,
        {
            let ghost s = bytes@.subrange(pos as int, len as int);
            if len - pos < 4 {
                assert(records_from(s, (count - i) as nat) is None);
                return Err(CorruptError);
            }
            let n = read_le(bytes, pos, 4);
            proof {
                lemma_le_value_bound(bytes@.subrange(pos as int, pos + 4));
                assert(s.subrange(0, 4) =~= bytes@.subrange(pos as int, pos + 4));
            }
            if ((len - pos - 4) as u64) < n {
                assert(records_from(s, (count - i) as nat) is None);
                return Err(CorruptError);
            }
            let start = pos + 4;
            let end = start + n as usize;
            let record = copy_range(bytes, start, end);
            proof {
                assert(s.subrange(4 + n as int, s.len() as int) =~= bytes@.subrange(end as int, len as int));
                assert(s.subrange(4, 4 + n as int) =~= record@);
                let old_views = views(messages@);
                assert(views(messages@.push(record)) =~= old_views.push(record@));
                let tail = records_from(bytes@.subrange(end as int, len as int), (count - i - 1) as nat);
                if let Some(rest) = tail {
                    assert(old_views + (seq![record@] + rest) =~= old_views.push(record@) + rest);
                }
            }
            messages.push(record);
            pos = end;
            i = i + 1;
        }
        if pos != len {
            return Err(CorruptError);
        }
        proof {
            assert(bytes@.subrange(pos as int, len as int) =~= Seq::<u8>::empty());
            assert(views(messages@) + Seq::<Seq<u8>>::empty() =~= views(messages@));
        }
        Ok(AccumulatorMessages { magic, slot, ring_size, messages })
    }

    /// The position on the source chain's ring that produced this snapshot.
    pub fn ring_index(&self) -> (r: Result<u32, InvalidRingConfiguration>)
        ensures
            r is Err <==> self.ring_size == 0,
            r matches Ok(i) ==> i == self.slot % (self.ring_size as u64),
    {
        if self.ring_size == 0 {
            Err(InvalidRingConfiguration)
        } else {
            Ok((self.slot % (self.ring_size as u64)) as u32)
        }
    }
}

} // verus!
