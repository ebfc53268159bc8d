use musicnode::outbox::PendingOutbox;
use musicnode::state::State;
use musicnode::sync::{apply_block, decode_block, SyncCursor};
use musicnode::tx::{Transaction, YoutubeLink};
use musicnode::codec::{decode_batch, encode_batch, Batch};

const L1: &str = "dQw4w9WgXcQ";
const L2: &str = "abcdefghijk";
const L3: &str = "AAAAAAAAAAA";

fn tx(id: &str) -> Transaction {
    Transaction::AddToQueue { url: YoutubeLink::new(id.to_string()).unwrap() }
}

fn canonical(id: &str) -> String {
    format!("https://www.youtube.com/watch?v={}", id)
}

fn payload_of(ids: &[&str]) -> Vec<u8> {
    encode_batch(&Batch(ids.iter().map(|i| tx(i)).collect()))
}

#[test]
fn cursor_admits_each_height_once() {
    let mut c = SyncCursor::new(5);
    assert!(c.begin_block(5));
    // A live re-delivery of the replayed height is skipped.
    assert!(!c.begin_block(5));
    assert!(c.begin_block(6));
    assert!(!c.begin_block(6));
    assert!(!c.begin_block(4));
    assert!(c.begin_block(10));
    assert!(!c.begin_block(7));
}

#[test]
fn cursor_ignores_heights_before_start() {
    let mut c = SyncCursor::new(5);
    assert!(!c.begin_block(3));
    assert!(c.begin_block(5));
}

#[test]
fn caught_up_signal_is_idempotent() {
    let mut c = SyncCursor::new(0);
    assert!(!c.is_caught_up());
    c.mark_caught_up();
    assert!(c.is_caught_up());
    c.mark_caught_up();
    assert!(c.is_caught_up());
}

#[test]
fn decode_block_flattens_in_order() {
    let payloads = vec![payload_of(&[L1, L2]), payload_of(&[L3])];
    let txs = decode_block(&payloads);
    let ids: Vec<String> = txs
        .iter()
        .map(|t| {
            let Transaction::AddToQueue { url } = t;
            url.as_str().to_string()
        })
        .collect();
    assert_eq!(ids, vec![canonical(L1), canonical(L2), canonical(L3)]);
}

#[test]
fn decode_block_skips_malformed_payloads() {
    let payloads = vec![payload_of(&[L1]), b"not json".to_vec(), payload_of(&[L2])];
    let txs = decode_block(&payloads);
    assert_eq!(txs.len(), 2);
}

#[test]
fn apply_block_appends_in_order_across_blocks() {
    let mut s = State::new();
    let b1 = decode_block(&vec![payload_of(&[L1, L2])]);
    let d1 = vec![Some(100u64), Some(200u64)];
    apply_block(&mut s, &b1, 1000, &d1);
    let b2 = decode_block(&vec![payload_of(&[L3])]);
    let d2 = vec![Some(300u64)];
    apply_block(&mut s, &b2, 1000, &d2);
    let q = s.get_queue();
    assert_eq!(q.len(), 3);
    assert_eq!(q[0].link.as_str(), canonical(L1));
    assert_eq!(q[1].link.as_str(), canonical(L2));
    assert_eq!(q[2].link.as_str(), canonical(L3));
    assert_eq!(q[0].start_time, 1000);
    assert_eq!(q[1].start_time, 1100);
    assert_eq!(q[2].start_time, 1300);
}

#[test]
fn apply_block_skips_failures_and_continues() {
    let mut s = State::new();
    // The middle transaction's duration lookup failed.
    let txs = vec![tx(L1), tx(L2), tx(L3)];
    let durs = vec![Some(100u64), None, Some(300u64)];
    apply_block(&mut s, &txs, 1000, &durs);
    let q = s.get_queue();
    assert_eq!(q.len(), 2);
    assert_eq!(q[0].link.as_str(), canonical(L1));
    assert_eq!(q[1].link.as_str(), canonical(L3));
    assert_eq!(q[1].start_time, 1100);
}

#[test]
fn outbox_drains_all_at_once() {
    let mut o = PendingOutbox::new();
    assert!(o.take_batch().is_none());
    o.enqueue_local(tx(L1));
    o.enqueue_local(tx(L2));
    assert_eq!(o.len(), 2);
    let b = o.take_batch().unwrap();
    assert_eq!(b.0.len(), 2);
    assert_eq!(o.len(), 0);
    assert!(o.take_batch().is_none());
}

#[test]
fn outbox_batch_round_trips_through_wire() {
    let mut o = PendingOutbox::new();
    o.enqueue_local(tx(L1));
    o.enqueue_local(tx(L2));
    let b = o.take_batch().unwrap();
    let bytes = encode_batch(&b);
    let b2 = decode_batch(&bytes).unwrap();
    let ids: Vec<String> = b2
        .0
        .iter()
        .map(|t| {
            let Transaction::AddToQueue { url } = t;
            url.as_str().to_string()
        })
        .collect();
    assert_eq!(ids, vec![canonical(L1), canonical(L2)]);
}

#[test]
fn redelivered_height_produces_no_duplicate_entries() {
    let mut s = State::new();
    let mut c = SyncCursor::new(10);
    let payloads = vec![payload_of(&[L1])];
    // Replay delivers height 10, then the live feed re-delivers it.
    for _ in 0..2 {
        if c.begin_block(10) {
            let txs = decode_block(&payloads);
            let durs: Vec<Option<u64>> = txs.iter().map(|_| Some(100u64)).collect();
            apply_block(&mut s, &txs, 1000, &durs);
        }
    }
    assert_eq!(s.get_queue().len(), 1);
    assert_eq!(s.get_history().len(), 0);
}
