//! The fixed-layout envelope that names the Merkle root, slot and ring size
//! of an attested batch.
use vstd::prelude::*;
use vstd::slice::slice_to_vec;
use crate::bytes::{be_bytes, be_value, lemma_be_bytes_value, lemma_radix_small, read_be};

verus! {

/// Tag that opens every envelope ("AUWV" read big-endian).
pub const PAYLOAD_MAGIC: u32 = 0x41555756;

/// Encoded length of an envelope.
pub const PAYLOAD_LEN: usize = 37;

/// The only supported message-type discriminant (Merkle).
pub const MERKLE_MESSAGE_TYPE: u8 = 0;

/// Header of one attested batch, together with the attested bytes it came with.
#[derive(Clone, Debug)]
pub struct WormholeMerkleProof {
    pub root: [u8; 20],
    pub slot: u64,
    pub ring_size: u32,
    pub vaa: Vec<u8>,
}

#[derive(Clone, Debug)]
pub enum WormholePayload {
    Merkle(WormholeMerkleProof),
}

/// Malformed envelope bytes.
#[derive(Clone, Copy, Debug, PartialEq, Eq, Structural)]
pub enum FormatError {
    InvalidLength,
    InvalidMagic,
    UnsupportedMessageType,
}

pub open spec fn magic_of(b: Seq<u8>) -> nat {
    be_value(b.subrange(0, 4))
}

/// The error an envelope is rejected with, checked in order: length, magic,
/// message type; `None` for a well-formed envelope.
pub open spec fn payload_error(b: Seq<u8>) -> Option<FormatError> {
    if b.len() != PAYLOAD_LEN {
        Some(FormatError::InvalidLength)
    } else if magic_of(b) != PAYLOAD_MAGIC {
        Some(FormatError::InvalidMagic)
    } else if b[4] != MERKLE_MESSAGE_TYPE {
        Some(FormatError::UnsupportedMessageType)
    } else {
        None
    }
}

/// The header fields that a well-formed envelope `b` holds, with `vaa` attached.
pub open spec fn decodes_to(b: Seq<u8>, vaa: Seq<u8>, p: WormholeMerkleProof) -> bool {
    &&& p.slot as nat == be_value(b.subrange(5, 13))
    &&& p.ring_size as nat == be_value(b.subrange(13, 17))
    &&& p.root@ == b.subrange(17, 37)
    &&& p.vaa@ == vaa
}

/// The envelope that carries `slot`, `ring_size` and `root`.
pub open spec fn payload_bytes(slot: u64, ring_size: u32, root: Seq<u8>) -> Seq<u8> {
    be_bytes(PAYLOAD_MAGIC as nat, 4) + seq![MERKLE_MESSAGE_TYPE] + be_bytes(slot as nat, 8)
        + be_bytes(ring_size as nat, 4) + root
}

/// Any envelope built from the protocol magic, message type zero, a slot, a
/// ring size and a 20-byte root is accepted, and decodes to exactly those fields.
pub proof fn lemma_payload_round_trip(slot: u64, ring_size: u32, root: Seq<u8>, vaa: Seq<u8>)
    requires
        root.len() == 20,
    ensures
        payload_error(payload_bytes(slot, ring_size, root)) is None,
        forall|p: WormholeMerkleProof|
            decodes_to(payload_bytes(slot, ring_size, root), vaa, p) <==> (p.slot == slot
                && p.ring_size == ring_size && p.root@ == root && p.vaa@ == vaa),
{
    lemma_radix_small();
    lemma_be_bytes_value(PAYLOAD_MAGIC as nat, 4);
    lemma_be_bytes_value(slot as nat, 8);
    lemma_be_bytes_value(ring_size as nat, 4);
    let b = payload_bytes(slot, ring_size, root);
    assert(b.subrange(0, 4) =~= be_bytes(PAYLOAD_MAGIC as nat, 4));
    assert(b.subrange(5, 13) =~= be_bytes(slot as nat, 8));
    assert(b.subrange(13, 17) =~= be_bytes(ring_size as nat, 4));
    assert(b.subrange(17, 37) =~= root);
}

impl WormholePayload {
    /// Parses an envelope; `vaa_bytes` are the attested bytes it was carried in.
    pub fn try_from_bytes(bytes: &[u8], vaa_bytes: &[u8]) -> (r: Result<WormholePayload, FormatError>)
        ensures
            match r {
                Ok(WormholePayload::Merkle(p)) => payload_error(bytes@) is None && decodes_to(
                    bytes@,
                    vaa_bytes@,
                    p,
                ),
                Err(e) => payload_error(bytes@) == Some(e),
            },
    {
        if bytes.len() != PAYLOAD_LEN {
            return Err(FormatError::InvalidLength);
        }
        let magic = read_be(bytes, 0, 4);
        if magic != PAYLOAD_MAGIC as u64 {
            return Err(FormatError::InvalidMagic);
        }
        if bytes[4] != MERKLE_MESSAGE_TYPE {
            return Err(FormatError::UnsupportedMessageType);
        }
        let slot = read_be(bytes, 5, 8);
        let ring = read_be(bytes, 13, 4);
        proof {
            crate::bytes::lemma_be_value_bound(bytes@.subrange(13, 17));
            crate::bytes::lemma_radix_small();
        }
        let ring_size = ring as u32;
        let mut root: [u8; 20] = [0u8; 20];
        let mut i: usize = 0;
        while i < 20
            invariant
                i <= 20,
                bytes@.len() == PAYLOAD_LEN,
                root@.len() == 20,
                forall|j: int| 0 <= j < i ==> root@[j] == bytes@[17 + j],
            decreases 20 - i,
        {
            root[i] = bytes[17 + i];
            i = i + 1;
        }
        assert(root@ =~= bytes@.subrange(17, 37));
        Ok(
            WormholePayload::Merkle(
                WormholeMerkleProof { root, slot, ring_size, vaa: slice_to_vec(vaa_bytes) },
            ),
        )
    }
}

} // verus!
