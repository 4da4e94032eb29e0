use hermes::accumulator::{AccumulatorMessages, CorruptError, InvalidRingConfiguration};
use hermes::message::{
    bind_proofs, BindingError, Message, MessageExt, MessageIdentifier, MessageState, MessageType,
    PriceFeedMessage, ProofSet, RequestTime, TwapMessage, WormholeMerkleMessageProof,
};
use hermes::payload::{FormatError, WormholePayload};
use hermes::store::{RetentionPolicy, TimeSeriesStore};

fn envelope(slot: u64, ring_size: u32, root: [u8; 20]) -> Vec<u8> {
    let mut b = vec![0x41, 0x55, 0x57, 0x56, 0];
    b.extend_from_slice(&slot.to_be_bytes());
    b.extend_from_slice(&ring_size.to_be_bytes());
    b.extend_from_slice(&root);
    b
}

fn price(id: u8, publish_time: i64) -> Message {
    Message::PriceFeedMessage(PriceFeedMessage {
        id: [id; 32],
        price: 100,
        conf: 1,
        exponent: -8,
        publish_time,
        prev_publish_time: publish_time - 1,
        ema_price: 99,
        ema_conf: 2,
    })
}

fn twap(id: u8, publish_time: i64) -> Message {
    Message::TwapMessage(TwapMessage {
        id: [id; 32],
        cumulative_price: 1000,
        cumulative_conf: 10,
        num_down_slots: 0,
        exponent: -8,
        publish_time,
        prev_publish_time: publish_time - 1,
        publish_slot: 7,
    })
}

fn no_proof() -> ProofSet {
    ProofSet { wormhole_merkle_proof: WormholeMerkleMessageProof { vaa: vec![], proof: vec![] } }
}

fn state(id: u8, slot: u64, t: i64) -> MessageState {
    MessageState::new(price(id, t), vec![id, slot as u8], no_proof(), slot)
}

fn ident(id: u8) -> MessageIdentifier {
    MessageIdentifier { price_id: [id; 32], type_: MessageType::PriceFeedMessage }
}

#[test]
fn payload_decodes_fields() {
    let mut root = [0u8; 20];
    for (i, r) in root.iter_mut().enumerate() {
        *r = i as u8 + 1;
    }
    let b = envelope(0x0102030405060708, 0x0a0b0c0d, root);
    match WormholePayload::try_from_bytes(&b, &[9, 8, 7]) {
        Ok(WormholePayload::Merkle(p)) => {
            assert_eq!(p.slot, 0x0102030405060708);
            assert_eq!(p.ring_size, 0x0a0b0c0d);
            assert_eq!(p.root, root);
            assert_eq!(p.vaa, vec![9, 8, 7]);
        }
        Err(e) => panic!("unexpected {:?}", e),
    }
}

#[test]
fn payload_rejects_bad_length() {
    let mut b = envelope(1, 2, [0; 20]);
    b.push(0);
    assert!(matches!(WormholePayload::try_from_bytes(&b, &[]), Err(FormatError::InvalidLength)));
    assert!(matches!(WormholePayload::try_from_bytes(&b[..36], &[]), Err(FormatError::InvalidLength)));
    assert!(matches!(WormholePayload::try_from_bytes(&[], &[]), Err(FormatError::InvalidLength)));
}

#[test]
fn payload_rejects_bad_magic() {
    let mut b = envelope(1, 2, [0; 20]);
    b[3] = 0x57;
    assert!(matches!(WormholePayload::try_from_bytes(&b, &[]), Err(FormatError::InvalidMagic)));
}

#[test]
fn payload_rejects_message_type() {
    let mut b = envelope(1, 2, [0; 20]);
    b[4] = 1;
    assert!(matches!(
        WormholePayload::try_from_bytes(&b, &[]),
        Err(FormatError::UnsupportedMessageType)
    ));
}

fn snapshot(slot: u64, ring_size: u32) -> AccumulatorMessages {
    AccumulatorMessages { magic: *b"PNAU", slot, ring_size, messages: vec![] }
}

#[test]
fn ring_index_is_slot_mod_ring_size() {
    assert_eq!(snapshot(130, 64).ring_index(), Ok(2));
    assert_eq!(snapshot(5, 1).ring_index(), Ok(0));
    assert_eq!(snapshot(u64::MAX, u32::MAX).ring_index(), Ok((u64::MAX % u32::MAX as u64) as u32));
    assert_eq!(snapshot(130, 0).ring_index(), Err(InvalidRingConfiguration));
}

#[test]
fn accumulator_decodes_borsh_bytes() {
    let value: ([u8; 4], u64, u32, Vec<Vec<u8>>) =
        (*b"PNAU", 77, 64, vec![vec![1, 2, 3], vec![], vec![4]]);
    let bytes = borsh::BorshSerialize::try_to_vec(&value).unwrap();
    let m = AccumulatorMessages::try_from_slice(&bytes).unwrap();
    assert_eq!(m.magic, *b"PNAU");
    assert_eq!(m.slot, 77);
    assert_eq!(m.ring_size, 64);
    assert_eq!(m.messages, vec![vec![1, 2, 3], vec![], vec![4]]);
    assert_eq!(m.ring_index(), Ok(13));
}

#[test]
fn accumulator_rejects_corrupt_bytes() {
    let value: ([u8; 4], u64, u32, Vec<Vec<u8>>) = (*b"PNAU", 1, 2, vec![vec![1, 2, 3]]);
    let bytes = borsh::BorshSerialize::try_to_vec(&value).unwrap();
    assert_eq!(AccumulatorMessages::try_from_slice(&bytes[..bytes.len() - 1]).err(), Some(CorruptError));
    let mut longer = bytes.clone();
    longer.push(0);
    assert_eq!(AccumulatorMessages::try_from_slice(&longer).err(), Some(CorruptError));
    assert_eq!(AccumulatorMessages::try_from_slice(&bytes[..10]).err(), Some(CorruptError));
    let mut bad_count = bytes.clone();
    bad_count[16] = 2;
    assert_eq!(AccumulatorMessages::try_from_slice(&bad_count).err(), Some(CorruptError));
}

#[test]
fn message_derives_identity_and_time() {
    let p = price(3, 1234);
    assert_eq!(p.type_(), MessageType::PriceFeedMessage);
    assert_eq!(p.publish_time(), 1234);
    assert!(p.id() == ident(3));
    let t = twap(3, 99);
    assert_eq!(t.type_(), MessageType::TwapMessage);
    assert_eq!(t.publish_time(), 99);
    assert!(t.id() != p.id());
    let s = MessageState::new(t, vec![1], no_proof(), 42);
    assert_eq!(s.publish_time, 99);
    assert_eq!(s.slot, 42);
    assert!(s.key() == t.id());
    assert_eq!(s.time().publish_time, 99);
    assert_eq!(s.time().slot, 42);
}

#[test]
fn identifiers_equal_by_feed_and_kind() {
    assert!(ident(1) == ident(1));
    assert!(ident(1) != ident(2));
    let mut other = ident(1);
    other.price_id[31] = 0;
    assert!(ident(1) != other);
    other = ident(1);
    other.type_ = MessageType::TwapMessage;
    assert!(ident(1) != other);
    assert!(state(1, 5, 1000).key() == state(1, 9, 2000).key());
}

#[test]
fn binding_pairs_records_with_proofs() {
    let proofs = vec![
        WormholeMerkleMessageProof { vaa: vec![1], proof: vec![[1; 20]] },
        WormholeMerkleMessageProof { vaa: vec![2], proof: vec![[2; 20]] },
    ];
    let records = vec![(price(1, 10), vec![10]), (twap(2, 20), vec![20])];
    let states = bind_proofs(records, proofs, 5).unwrap();
    assert_eq!(states.len(), 2);
    assert!(states[0].id == ident(1));
    assert_eq!(states[1].publish_time, 20);
    assert_eq!(states[1].raw_message, vec![20]);
    assert_eq!(states[1].proof_set.wormhole_merkle_proof.vaa, vec![2]);
    assert_eq!(states[0].slot, 5);
    let short = bind_proofs(vec![(price(1, 10), vec![10])], vec![], 5);
    assert_eq!(short.err(), Some(BindingError));
}

fn slot_time(s: Option<&MessageState>) -> Option<(u64, i64)> {
    s.map(|e| (e.slot, e.publish_time))
}

#[test]
fn store_answers_latest_and_first_after() {
    let mut store = TimeSeriesStore::new();
    store.upsert_batch(vec![state(1, 8, 1010)]);
    store.upsert_batch(vec![state(1, 5, 1000)]);
    store.upsert_batch(vec![state(1, 6, 1005)]);
    let x = ident(1);
    assert_eq!(slot_time(store.query(&x, RequestTime::Latest)), Some((8, 1010)));
    assert_eq!(slot_time(store.query(&x, RequestTime::FirstAfter(1006))), Some((8, 1010)));
    assert_eq!(slot_time(store.query(&x, RequestTime::FirstAfter(1000))), Some((5, 1000)));
    assert_eq!(slot_time(store.query(&x, RequestTime::FirstAfter(2000))), None);
    assert_eq!(slot_time(store.query(&ident(2), RequestTime::Latest)), None);
}

#[test]
fn store_breaks_time_ties_by_slot() {
    let mut store = TimeSeriesStore::new();
    store.upsert_batch(vec![state(1, 9, 1000)]);
    store.upsert_batch(vec![state(1, 4, 1000)]);
    let x = ident(1);
    assert_eq!(slot_time(store.query(&x, RequestTime::Latest)), Some((9, 1000)));
    assert_eq!(slot_time(store.query(&x, RequestTime::FirstAfter(1000))), Some((4, 1000)));
}

#[test]
fn reingesting_a_batch_is_idempotent() {
    let mut store = TimeSeriesStore::new();
    let batch = || vec![state(1, 6, 1005), state(2, 6, 1006)];
    store.upsert_batch(vec![state(1, 5, 1000)]);
    store.upsert_batch(batch());
    store.upsert_batch(batch());
    let x = ident(1);
    assert_eq!(slot_time(store.query(&x, RequestTime::Latest)), Some((6, 1005)));
    assert_eq!(slot_time(store.query(&x, RequestTime::FirstAfter(0))), Some((5, 1000)));
    assert_eq!(slot_time(store.query(&ident(2), RequestTime::FirstAfter(0))), Some((6, 1006)));
    // a replacement at the same slot overwrites rather than adds
    store.upsert_batch(vec![state(1, 6, 1001)]);
    assert_eq!(slot_time(store.query(&x, RequestTime::Latest)), Some((6, 1001)));
    assert_eq!(slot_time(store.query(&x, RequestTime::FirstAfter(1001))), Some((6, 1001)));
    assert_eq!(slot_time(store.query(&x, RequestTime::FirstAfter(1002))), None);
}

#[test]
fn batch_updates_every_series() {
    let mut store = TimeSeriesStore::new();
    store.upsert_batch(vec![state(1, 3, 500), state(2, 3, 501)]);
    store.upsert_batch(vec![state(1, 4, 600), state(2, 4, 601)]);
    assert_eq!(slot_time(store.query(&ident(1), RequestTime::Latest)), Some((4, 600)));
    assert_eq!(slot_time(store.query(&ident(2), RequestTime::Latest)), Some((4, 601)));
}

#[test]
fn pruning_keeps_the_latest() {
    let mut store = TimeSeriesStore::new();
    store.upsert_batch(vec![state(1, 5, 1000), state(2, 5, 1000)]);
    store.upsert_batch(vec![state(1, 6, 1005)]);
    store.upsert_batch(vec![state(1, 8, 1010)]);
    let aggressive = RetentionPolicy { current_slot: 100, slot_window: 0, now: 5000, max_age: 0 };
    store.prune(&aggressive);
    let x = ident(1);
    assert_eq!(slot_time(store.query(&x, RequestTime::Latest)), Some((8, 1010)));
    assert_eq!(slot_time(store.query(&x, RequestTime::FirstAfter(0))), Some((8, 1010)));
    assert_eq!(slot_time(store.query(&ident(2), RequestTime::Latest)), Some((5, 1000)));
}

#[test]
fn pruning_respects_window_and_age() {
    let mut store = TimeSeriesStore::new();
    store.upsert_batch(vec![state(1, 5, 1000)]);
    store.upsert_batch(vec![state(1, 6, 1005)]);
    store.upsert_batch(vec![state(1, 8, 1010)]);
    let policy = RetentionPolicy { current_slot: 8, slot_window: 3, now: 1010, max_age: 100 };
    store.prune(&policy);
    let x = ident(1);
    assert_eq!(slot_time(store.query(&x, RequestTime::FirstAfter(0))), Some((6, 1005)));
    let by_age = RetentionPolicy { current_slot: 8, slot_window: 100, now: 1010, max_age: 5 };
    store.prune(&by_age);
    assert_eq!(slot_time(store.query(&x, RequestTime::FirstAfter(0))), Some((6, 1005)));
    let tighter = RetentionPolicy { current_slot: 8, slot_window: 100, now: 1010, max_age: 4 };
    store.prune(&tighter);
    assert_eq!(slot_time(store.query(&x, RequestTime::FirstAfter(0))), Some((8, 1010)));
}

#[test]
fn ingest_commits_whole_batch_or_nothing() {
    let mut store = TimeSeriesStore::new();
    let proof = |v: u8| WormholeMerkleMessageProof { vaa: vec![v], proof: vec![] };
    let missing = store.ingest(vec![(price(1, 10), vec![1]), (price(2, 11), vec![2])], vec![proof(1)], 3);
    assert_eq!(missing, Err(BindingError));
    assert!(store.query(&ident(1), RequestTime::Latest).is_none());
    assert!(store.query(&ident(2), RequestTime::Latest).is_none());
    let ok = store.ingest(
        vec![(price(1, 10), vec![1]), (price(2, 11), vec![2])],
        vec![proof(1), proof(2)],
        3,
    );
    assert_eq!(ok, Ok(()));
    assert_eq!(slot_time(store.query(&ident(1), RequestTime::Latest)), Some((3, 10)));
    assert_eq!(slot_time(store.query(&ident(2), RequestTime::Latest)), Some((3, 11)));
    let latest = store.query(&ident(2), RequestTime::Latest).unwrap();
    assert_eq!(latest.proof_set.wormhole_merkle_proof.vaa, vec![2]);
}
