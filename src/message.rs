//! Typed update records, their derived identity and time, and the binding of
//! one inclusion proof to each record of a batch.
use vstd::prelude::*;

verus! {

pub type Slot = u64;

pub type UnixTimestamp = i64;

pub type RawMessage = Vec<u8>;

/// The two kinds of update a record can carry.
#[derive(Clone, Copy, Debug, PartialEq, Eq, Structural, Hash)]
pub enum MessageType {
    PriceFeedMessage,
    TwapMessage,
}

#[derive(Clone, Copy, Debug)]
pub struct PriceFeedMessage {
    pub id: [u8; 32],
    pub price: i64,
    pub conf: u64,
    pub exponent: i32,
    pub publish_time: i64,
    pub prev_publish_time: i64,
    pub ema_price: i64,
    pub ema_conf: u64,
}

#[derive(Clone, Copy, Debug)]
pub struct TwapMessage {
    pub id: [u8; 32],
    pub cumulative_price: i128,
    pub cumulative_conf: u128,
    pub num_down_slots: u64,
    pub exponent: i32,
    pub publish_time: i64,
    pub prev_publish_time: i64,
    pub publish_slot: u64,
}

/// A parsed update record.
#[derive(Clone, Copy, Debug)]
pub enum Message {
    PriceFeedMessage(PriceFeedMessage),
    TwapMessage(TwapMessage),
}

/// The logical series a record belongs to: feed and kind of update.
#[derive(Clone, Copy, Debug, Hash)]
pub struct MessageIdentifier {
    pub price_id: [u8; 32],
    pub type_: MessageType,
}

impl View for MessageIdentifier {
    type V = (Seq<u8>, MessageType);

    open spec fn view(&self) -> (Seq<u8>, MessageType) {
        (self.price_id@, self.type_)
    }
}

/// Two identifiers are equal exactly when feed and kind agree.
impl PartialEq for MessageIdentifier {
    fn eq(&self, other: &MessageIdentifier) -> (r: bool)
        ensures
            r == (self@ == other@),
    {
        if self.type_ != other.type_ {
            return false;
        }
        let mut i: usize = 0;
        while i < 32
            invariant
                i <= 32,
                self.price_id@.len() == 32,
                other.price_id@.len() == 32,
                forall|j: int| 0 <= j < i ==> self.price_id@[j] == other.price_id@[j],
            decreases 32 - i,
        {
            if self.price_id[i] != other.price_id[i] {
                return false;
            }
            i = i + 1;
        }
        assert(self.price_id@ =~= other.price_id@);
        true
    }
}

impl vstd::std_specs::cmp::PartialEqSpecImpl for MessageIdentifier {
    open spec fn obeys_eq_spec() -> bool {
        true
    }

    open spec fn eq_spec(&self, other: &MessageIdentifier) -> bool {
        self@ == other@
    }
}

impl Eq for MessageIdentifier {}

/// Sort key of the store, ordered by publish time, then slot.
#[derive(Clone, Copy, Debug, PartialEq, Eq, Structural, PartialOrd, Ord)]
pub struct MessageTime {
    pub publish_time: UnixTimestamp,
    pub slot: Slot,
}

/// `a` comes strictly before `b` in `(publish_time, slot)` order.
pub open spec fn time_lt(a: MessageTime, b: MessageTime) -> bool {
    a.publish_time < b.publish_time || (a.publish_time == b.publish_time && a.slot < b.slot)
}

impl MessageTime {
    pub fn is_before(&self, other: &MessageTime) -> (r: bool)
        ensures
            r == time_lt(*self, *other),
    {
        self.publish_time < other.publish_time || (self.publish_time == other.publish_time
            && self.slot < other.slot)
    }
}

impl Message {
    pub open spec fn spec_type(&self) -> MessageType {
        match self {
            Message::PriceFeedMessage(_) => MessageType::PriceFeedMessage,
            Message::TwapMessage(_) => MessageType::TwapMessage,
        }
    }

    pub open spec fn spec_id(&self) -> (Seq<u8>, MessageType) {
        match self {
            Message::PriceFeedMessage(m) => (m.id@, self.spec_type()),
            Message::TwapMessage(m) => (m.id@, self.spec_type()),
        }
    }

    pub open spec fn spec_publish_time(&self) -> UnixTimestamp {
        match self {
            Message::PriceFeedMessage(m) => m.publish_time,
            Message::TwapMessage(m) => m.publish_time,
        }
    }
}

/// What every record derives from its contents.
pub trait MessageExt {
    fn type_(&self) -> MessageType;

    fn id(&self) -> MessageIdentifier;

    fn publish_time(&self) -> UnixTimestamp;
}

impl MessageExt for Message {
    fn type_(&self) -> (r: MessageType)
        ensures
            r == self.spec_type(),
    {
        match self {
            Message::PriceFeedMessage(_) => MessageType::PriceFeedMessage,
            Message::TwapMessage(_) => MessageType::TwapMessage,
        }
    }

    fn id(&self) -> (r: MessageIdentifier)
        ensures
            r@ == self.spec_id(),
    {
        MessageIdentifier {
            price_id: match self {
                Message::PriceFeedMessage(m) => m.id,
                Message::TwapMessage(m) => m.id,
            },
            type_: self.type_(),
        }
    }

    fn publish_time(&self) -> (r: UnixTimestamp)
        ensures
            r == self.spec_publish_time(),
    {
        match self {
            Message::PriceFeedMessage(m) => m.publish_time,
            Message::TwapMessage(m) => m.publish_time,
        }
    }
}

/// Inclusion proof of one record in the accumulator of an attested batch.
#[derive(Clone, Debug)]
pub struct WormholeMerkleMessageProof {
    pub vaa: Vec<u8>,
    pub proof: Vec<[u8; 20]>,
}

/// Accumulator state kept beside a batch: the digest proof and, where built,
/// the tree's levels.
#[derive(Clone, Debug)]
pub struct WormholeMerkleState {
    pub digest_proof: Vec<u8>,
    pub tree: Option<Vec<Vec<u8>>>,
}

#[derive(Clone, Debug)]
pub struct ProofSet {
    pub wormhole_merkle_proof: WormholeMerkleMessageProof,
}

/// A record as the store keeps it. `id` and `publish_time` are derived from
/// `message` (see `wf`).
#[derive(Clone, Debug)]
pub struct MessageState {
    pub publish_time: UnixTimestamp,
    pub slot: Slot,
    pub id: MessageIdentifier,
    pub message: Message,
    pub raw_message: RawMessage,
    pub proof_set: ProofSet,
}

/// Query descriptor: the newest entry, or the first at or after a time.
#[derive(Clone, Copy, Debug, PartialEq, Eq, Structural)]
pub enum RequestTime {
    Latest,
    FirstAfter(UnixTimestamp),
}

pub struct PriceFeedsWithUpdateData {
    pub price_feeds: Vec<PriceFeedMessage>,
    pub wormhole_merkle_update_data: Vec<Vec<u8>>,
}

impl MessageState {
    /// Identity and publish time agree with the message.
    pub open spec fn wf(&self) -> bool {
        &&& self.id@ == self.message.spec_id()
        &&& self.publish_time == self.message.spec_publish_time()
    }

    pub open spec fn spec_time(&self) -> MessageTime {
        MessageTime { publish_time: self.publish_time, slot: self.slot }
    }

    pub open spec fn spec_key(&self) -> (Seq<u8>, MessageType) {
        self.id@
    }

    pub fn time(&self) -> (r: MessageTime)
        ensures
            r == self.spec_time(),
    {
        MessageTime { publish_time: self.publish_time, slot: self.slot }
    }

    pub fn key(&self) -> (r: MessageIdentifier)
        ensures
            r@ == self.spec_key(),
    {
        self.id
    }

    pub fn new(message: Message, raw_message: RawMessage, proof_set: ProofSet, slot: Slot) -> (r:
        MessageState)
        ensures
            r.wf(),
            r.message == message,
            r.raw_message == raw_message,
            r.proof_set == proof_set,
            r.slot == slot,
    {
        let publish_time = message.publish_time();
        let id = message.id();
        MessageState { publish_time, slot, id, message, raw_message, proof_set }
    }
}

/// A batch whose records and proofs differ in number.
#[derive(Clone, Copy, Debug, PartialEq, Eq, Structural)]
pub struct BindingError;

/// The record that binding pairs `(message, raw)` with `proof` at `slot`.
pub open spec fn bound(record: (Message, RawMessage), proof: WormholeMerkleMessageProof, slot: Slot, s: MessageState) -> bool {
    &&& s.wf()
    &&& s.message == record.0
    &&& s.raw_message == record.1
    &&& s.proof_set == ProofSet { wormhole_merkle_proof: proof }
    &&& s.slot == slot
}

/// Pairs each decoded record of a batch at `slot` with its inclusion proof, in
/// order. Fails, binding nothing, unless there is exactly one proof per record.
pub fn bind_proofs(
    records: Vec<(Message, RawMessage)>,
    proofs: Vec<WormholeMerkleMessageProof>,
    slot: Slot,
) -> (r: Result<Vec<MessageState>, BindingError>)
    ensures
        r is Err <==> records@.len() != proofs@.len(),
        r matches Ok(states) ==> {
            &&& states@.len() == records@.len()
            &&& forall|i: int|
                0 <= i < states@.len() ==> bound(
                    #[trigger] records@[i],
                    proofs@[i],
                    slot,
                    states@[i],
                )
        },
{
    if records.len() != proofs.len() {
        return Err(BindingError);
    }
    let ghost all_records = records@;
    let ghost all_proofs = proofs@;
    let mut records = records;
    let mut proofs = proofs;
    let mut states: Vec<MessageState> = Vec::new();
    while records.len() > 0
        invariant
            records@.len() == proofs@.len(),
            states@.len() + records@.len() == all_records.len(),
            all_proofs.len() == all_records.len(),
            records@ == all_records.subrange(states@.len() as int, all_records.len() as int),
            proofs@ == all_proofs.subrange(states@.len() as int, all_proofs.len() as int),
            forall|i: int|
                0 <= i < states@.len() ==> bound(
                    #[trigger] all_records[i],
                    all_proofs[i],
                    slot,
                    states@[i],
                ),
        decreases records@.len(),
    {
        let (message, raw) = records.remove(0);
        let proof = proofs.remove(0);
        let state = MessageState::new(message, raw, ProofSet { wormhole_merkle_proof: proof }, slot);
        states.push(state);
    }
    Ok(states)
}

} // verus!
