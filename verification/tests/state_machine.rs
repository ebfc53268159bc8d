use musicnode::codec::decode_batch;
use musicnode::state::{State, StateError};
use musicnode::tx::{Transaction, YoutubeLink};

const L1: &str = "dQw4w9WgXcQ";
const L2: &str = "abcdefghijk";
const L3: &str = "AAAAAAAAAAA";

fn tx(id: &str) -> Transaction {
    Transaction::AddToQueue { url: YoutubeLink::new(id.to_string()).unwrap() }
}

fn canonical(id: &str) -> String {
    format!("https://www.youtube.com/watch?v={}", id)
}

#[test]
fn two_applies_schedule_back_to_back() {
    let mut s = State::new();
    let t0: u64 = 1000;
    s.process_tx(tx(L1), t0, Some(180)).unwrap();
    let q = s.get_queue();
    assert_eq!(q.len(), 1);
    assert_eq!(q[0].start_time, 1000);
    assert_eq!(q[0].duration, 180);
    assert_eq!(q[0].link.as_str(), canonical(L1));

    s.process_tx(tx(L2), t0, Some(200)).unwrap();
    let q = s.get_queue();
    assert_eq!(q.len(), 2);
    assert_eq!(q[1].start_time, 1180);
    assert_eq!(q[1].duration, 200);
    assert_eq!(q[1].link.as_str(), canonical(L2));
}

#[test]
fn apply_starts_no_earlier_than_now() {
    let mut s = State::new();
    s.process_tx(tx(L1), 1000, Some(10)).unwrap();
    // The first window ends at 1010; applying later starts at `now`.
    s.process_tx(tx(L2), 5000, Some(10)).unwrap();
    let q = s.get_queue();
    assert_eq!(q[1].start_time, 5000);
}

#[test]
fn lookup_failure_leaves_state_unchanged() {
    let mut s = State::new();
    let t0: u64 = 1000;
    s.process_tx(tx(L1), t0, Some(180)).unwrap();
    let r = s.process_tx(tx(L2), t0, None);
    assert_eq!(r, Err(StateError::LookupFailed));
    let q = s.get_queue();
    assert_eq!(q.len(), 1);
    assert_eq!(q[0].start_time, 1000);
    assert_eq!(q[0].duration, 180);
    assert_eq!(q[0].link.as_str(), canonical(L1));
    assert_eq!(s.get_history().len(), 0);
}

#[test]
fn invalid_decoded_link_rejected() {
    // A wire payload can carry a link that fails re-validation; applying
    // it reports the failure and leaves the state untouched.
    let payload = b"{\"AddToQueue\":{\"url\":\"bad\"}}".to_vec();
    let batch = decode_batch(&payload).unwrap();
    let mut s = State::new();
    let mut it = batch.0.into_iter();
    let bad = it.next().unwrap();
    let r = s.process_tx(bad, 1000, Some(60));
    assert_eq!(r, Err(StateError::InvalidLink));
    assert_eq!(s.get_queue().len(), 0);
    assert_eq!(s.get_history().len(), 0);
}

#[test]
fn validate_tx_checks_link() {
    let s = State::new();
    assert!(s.validate_tx(tx(L1)).is_ok());
    let payload = b"{\"AddToQueue\":{\"url\":\"bad\"}}".to_vec();
    let batch = decode_batch(&payload).unwrap();
    let bad = batch.0.into_iter().next().unwrap();
    assert_eq!(s.validate_tx(bad), Err(StateError::InvalidLink));
}

#[test]
fn eviction_moves_only_elapsed_prefix() {
    let mut s = State::new();
    let t0: u64 = 1000;
    s.process_tx(tx(L1), t0, Some(100)).unwrap();
    s.process_tx(tx(L2), t0, Some(200)).unwrap();
    s.process_tx(tx(L3), t0, Some(300)).unwrap();
    // Windows: [1000,1100), [1100,1300), [1300,1600).
    // At 1150 only the first has elapsed.
    s.cleanup_queue(1150);
    assert_eq!(s.get_history().len(), 1);
    assert_eq!(s.get_history()[0].link.as_str(), canonical(L1));
    let q = s.get_queue();
    assert_eq!(q.len(), 2);
    assert_eq!(q[0].link.as_str(), canonical(L2));
    assert_eq!(q[1].link.as_str(), canonical(L3));
}

#[test]
fn eviction_boundary_is_inclusive() {
    let mut s = State::new();
    s.process_tx(tx(L1), 1000, Some(100)).unwrap();
    // At exactly start + duration the window has elapsed.
    s.cleanup_queue(1100);
    assert_eq!(s.get_queue().len(), 0);
    assert_eq!(s.get_history().len(), 1);
}

#[test]
fn eviction_leaves_running_and_future_entries() {
    let mut s = State::new();
    s.process_tx(tx(L1), 1000, Some(100)).unwrap();
    s.cleanup_queue(1099);
    assert_eq!(s.get_queue().len(), 1);
    assert_eq!(s.get_history().len(), 0);
    // A queue whose front starts in the future is left alone too.
    let mut s2 = State::new();
    s2.process_tx(tx(L1), 2000, Some(100)).unwrap();
    s2.cleanup_queue(1000);
    assert_eq!(s2.get_queue().len(), 1);
}

#[test]
fn eviction_on_empty_queue_is_a_noop() {
    let mut s = State::new();
    s.cleanup_queue(1000);
    assert_eq!(s.get_queue().len(), 0);
    assert_eq!(s.get_history().len(), 0);
}

#[test]
fn next_song_is_queue_front() {
    let mut s = State::new();
    assert!(s.get_next_song().is_none());
    s.process_tx(tx(L1), 1000, Some(100)).unwrap();
    s.process_tx(tx(L2), 1000, Some(100)).unwrap();
    let front = s.get_next_song().unwrap();
    assert_eq!(front.link.as_str(), canonical(L1));
}

#[test]
fn overflowing_window_rejected() {
    let mut s = State::new();
    let r = s.process_tx(tx(L1), u64::MAX - 10, Some(100));
    assert_eq!(r, Err(StateError::TimeOverflow));
    assert_eq!(s.get_queue().len(), 0);
}
