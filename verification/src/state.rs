//! The playback queue state machine.
//!
//! State is a pair of ordered sequences of scheduled entries: a FIFO queue
//! of upcoming or playing entries and an append-only history of finished
//! ones.  Entries enter the queue through `process_tx`, scheduled right
//! after the end of the current tail, and move to history through
//! `cleanup_queue` once their playback window has elapsed.  Times are
//! seconds; playback windows never overlap.

use vstd::prelude::*;

verus! {

use std::collections::VecDeque;
use crate::tx::Transaction;
use crate::tx::YoutubeLink;
use crate::tx::link_source_valid;
use crate::tx::clean_chars;
use crate::tx::extract_video_id;

/// One scheduled playback entry: the link plays over the window
/// `[start_time, start_time + duration)`.
#[derive(Clone, Debug)]
pub struct QueuedSong {
    pub start_time: u64,
    pub duration: u64,
    pub link: YoutubeLink,
}

/// Why an `apply` call failed.  A failed call leaves the state unchanged.
#[derive(Clone, Copy, Debug, PartialEq, Eq, Structural)]
pub enum StateError {
    /// The transaction's link does not re-validate.
    InvalidLink,
    /// The external duration lookup failed for this link.
    LookupFailed,
    /// The entry's playback window would not fit in the time domain.
    TimeOverflow,
}

/// The entry's playback window fits in the time domain.
pub open spec fn song_fits(s: QueuedSong) -> bool {
    s.start_time + s.duration <= u64::MAX
}

/// The entry's playback window has elapsed at time `now`.
pub open spec fn song_elapsed(s: QueuedSong, now: u64) -> bool {
    s.start_time + s.duration <= now
}

/// Queue well-formedness: every window fits, and adjacent entries do not
/// overlap — each entry starts no earlier than the end of the previous
/// one.  This implies the queue is sorted by non-decreasing start time.
pub open spec fn queue_wf(q: Seq<QueuedSong>) -> bool {
    &&& forall|i: int| 0 <= i < q.len() ==> song_fits(#[trigger] q[i])
    &&& forall|i: int|
        0 <= i < q.len() - 1 ==> (#[trigger] q[i]).start_time + q[i].duration <= q[
            i + 1
        ].start_time
}

/// How many entries `cleanup_queue` moves at time `now`: the longest
/// elapsed prefix of the queue.
pub open spec fn spec_evict_count(q: Seq<QueuedSong>, now: u64) -> int
    decreases q.len(),
{
    if q.len() > 0 && song_elapsed(q[0], now) {
        1 + spec_evict_count(q.skip(1), now)
    } else {
        0
    }
}

/// The eviction count is between 0 and the queue length, every moved
/// entry has elapsed, and the first kept entry has not.
pub proof fn lemma_evict_count_bounds(q: Seq<QueuedSong>, now: u64)
    ensures
        0 <= spec_evict_count(q, now) <= q.len(),
        forall|i: int| 0 <= i < spec_evict_count(q, now) ==> song_elapsed(#[trigger] q[i], now),
        spec_evict_count(q, now) < q.len() ==> !song_elapsed(q[spec_evict_count(q, now)], now),
    decreases q.len(),
{
    if q.len() > 0 && song_elapsed(q[0], now) {
        lemma_evict_count_bounds(q.skip(1), now);
        assert forall|i: int| 0 <= i < spec_evict_count(q, now) implies song_elapsed(
            #[trigger] q[i],
            now,
        ) by {
            if i > 0 {
                assert(q.skip(1)[i - 1] == q[i]);
            }
        }
    }
}

/// A prefix of elapsed entries followed by a non-elapsed entry pins the
/// eviction count exactly.
proof fn lemma_evict_count_prefix(q: Seq<QueuedSong>, now: u64, k: int)
    requires
        0 <= k <= q.len(),
        forall|i: int| 0 <= i < k ==> song_elapsed(#[trigger] q[i], now),
        k == q.len() || !song_elapsed(q[k], now),
    ensures
        spec_evict_count(q, now) == k,
    decreases k,
{
    if k == 0 {
    } else {
        let t = q.skip(1);
        assert forall|i: int| 0 <= i < k - 1 implies song_elapsed(#[trigger] t[i], now) by {
            assert(t[i] == q[i + 1]);
        }
        if k < q.len() {
            assert(t[k - 1] == q[k]);
        }
        lemma_evict_count_prefix(t, now, k - 1);
    }
}

/// In a well-formed queue the window ends are non-decreasing, so once the
/// scan of `cleanup_queue` stops, no later entry has elapsed either: the
/// early stop loses nothing.
pub proof fn lemma_evict_stop_complete(q: Seq<QueuedSong>, now: u64)
    requires
        queue_wf(q),
    ensures
        forall|i: int|
            spec_evict_count(q, now) <= i < q.len() ==> !song_elapsed(#[trigger] q[i], now),
{
    lemma_evict_count_bounds(q, now);
    let k = spec_evict_count(q, now);
    assert forall|i: int| k <= i < q.len() implies !song_elapsed(#[trigger] q[i], now) by {
        lemma_ends_monotonic(q, k, i);
    }
}

/// Window ends are monotone along a well-formed queue.
proof fn lemma_ends_monotonic(q: Seq<QueuedSong>, i: int, j: int)
    requires
        queue_wf(q),
        0 <= i <= j < q.len(),
    ensures
        q[i].start_time + q[i].duration <= q[j].start_time + q[j].duration,
    decreases j - i,
{
    if i < j {
        lemma_ends_monotonic(q, i, j - 1);
        assert(q[j - 1].start_time + q[j - 1].duration <= q[j].start_time);
    }
}

/// Where the next entry starts: at `now` for an empty queue, otherwise no
/// earlier than `now` and no earlier than the end of the current tail.
pub open spec fn spec_next_start(q: Seq<QueuedSong>, now: u64) -> int {
    if q.len() == 0 {
        now as int
    } else {
        let end = q[q.len() - 1].start_time + q[q.len() - 1].duration;
        if now >= end {
            now as int
        } else {
            end
        }
    }
}

/// The in-memory node state: an append-only history and a FIFO queue of
/// scheduled entries.
pub struct State {
    history: VecDeque<QueuedSong>,
    queue: VecDeque<QueuedSong>,
}

impl State {
    /// The history entries, oldest first.
    pub closed spec fn history_seq(&self) -> Seq<QueuedSong> {
        self.history@
    }

    /// The queued entries, front (currently playing or next) first.
    pub closed spec fn queue_seq(&self) -> Seq<QueuedSong> {
        self.queue@
    }

    /// State well-formedness: the queue is well-formed.  Established by
    /// `new` and preserved by every mutation.
    pub open spec fn wf(&self) -> bool {
        queue_wf(self.queue_seq())
    }

    /// A fresh, empty state.
    pub fn new() -> (s: Self)
        ensures
            s.wf(),
            s.history_seq() == Seq::<QueuedSong>::empty(),
            s.queue_seq() == Seq::<QueuedSong>::empty(),
    {
        State { history: VecDeque::new(), queue: VecDeque::new() }
    }

    /// The entry at the front of the queue, if any.
    pub fn get_next_song(&self) -> (r: Option<&QueuedSong>)
        ensures
            match r {
                Some(s) => self.queue_seq().len() > 0 && *s == self.queue_seq()[0],
                None => self.queue_seq().len() == 0,
            },
    {
        if self.queue.len() > 0 {
            Some(&self.queue[0])
        } else {
            None
        }
    }

    /// The history, oldest entry first.
    pub fn get_history(&self) -> (r: &VecDeque<QueuedSong>)
        ensures
            r@ == self.history_seq(),
    {
        &self.history
    }

    /// The queue, front entry first.
    pub fn get_queue(&self) -> (r: &VecDeque<QueuedSong>)
        ensures
            r@ == self.queue_seq(),
    {
        &self.queue
    }

    /// Move every elapsed entry at the front of the queue to the history,
    /// stopping at the first entry still playing or upcoming.  Because a
    /// well-formed queue is ordered by window end, the stop loses nothing
    /// (`lemma_evict_stop_complete`).
    pub fn cleanup_queue(&mut self, now: u64)
        requires
            old(self).wf(),
        ensures
            final(self).wf(),
            final(self).queue_seq() == old(self).queue_seq().skip(
                spec_evict_count(old(self).queue_seq(), now),
            ),
            final(self).history_seq() == old(self).history_seq() + old(self).queue_seq().take(
                spec_evict_count(old(self).queue_seq(), now),
            ),
    {
        let ghost q0 = self.queue@;
        let ghost h0 = self.history@;
        let ghost mut k: int = 0;
        while self.queue.len() > 0 && self.queue[0].start_time + self.queue[0].duration <= now
            invariant
                0 <= k <= q0.len(),
                queue_wf(q0),
                self.queue@ =~= q0.skip(k),
                self.history@ =~= h0 + q0.take(k),
                forall|i: int| 0 <= i < k ==> song_elapsed(#[trigger] q0[i], now),
            decreases self.queue@.len(),
        {
            proof {
                assert(self.queue@[0] == q0[k]);
                assert(song_elapsed(q0[k], now));
            }
            let song = self.queue.pop_front().unwrap();
            self.history.push_back(song);
            proof {
                k = k + 1;
                assert(self.queue@ =~= q0.skip(k));
                assert(self.history@ =~= h0 + q0.take(k));
            }
        }
        proof {
            if k < q0.len() {
                assert(self.queue@[0] == q0[k]);
            }
            lemma_evict_count_prefix(q0, now, k);
            assert forall|i: int|
                0 <= i < self.queue@.len() - 1 implies (#[trigger] self.queue@[i]).start_time
                + self.queue@[i].duration <= self.queue@[i + 1].start_time by {
                assert(self.queue@[i] == q0[k + i]);
                assert(self.queue@[i + 1] == q0[k + i + 1]);
            }
            assert forall|i: int| 0 <= i < self.queue@.len() implies song_fits(
                #[trigger] self.queue@[i],
            ) by {
                assert(self.queue@[i] == q0[k + i]);
            }
        }
    }

    /// Check that the transaction's link re-validates under the link
    /// grammar.  Never mutates state.
    pub fn validate_tx(&self, tx: Transaction) -> (r: Result<(), StateError>)
        ensures
            match r {
                Ok(()) => link_source_valid(tx@),
                Err(e) => e == StateError::InvalidLink && !link_source_valid(tx@),
            },
    {
        match &tx {
            Transaction::AddToQueue { url } => {
                let cleaned = clean_chars(url.as_str());
                match extract_video_id(&cleaned) {
                    Some(_) => Ok(()),
                    None => Err(StateError::InvalidLink),
                }
            },
        }
    }

    /// Apply one transaction: validate the link, take the externally
    /// resolved playback duration (`None` models a failed lookup), and
    /// append the entry right after the end of the current tail, no
    /// earlier than `now`.  A failed call reports why and leaves the
    /// state untouched.
    pub fn process_tx(&mut self, tx: Transaction, now: u64, duration: Option<u64>) -> (r: Result<
        (),
        StateError,
    >)
        requires
            old(self).wf(),
        ensures
            final(self).wf(),
            final(self).history_seq() == old(self).history_seq(),
            match r {
                Ok(()) => {
                    &&& link_source_valid(tx@)
                    &&& duration is Some
                    &&& spec_next_start(old(self).queue_seq(), now) + duration.unwrap()
                        <= u64::MAX
                    &&& final(self).queue_seq().len() == old(self).queue_seq().len() + 1
                    &&& final(self).queue_seq().take(old(self).queue_seq().len() as int) == old(
                        self,
                    ).queue_seq()
                    &&& final(self).queue_seq().last().start_time == spec_next_start(
                        old(self).queue_seq(),
                        now,
                    )
                    &&& final(self).queue_seq().last().duration == duration.unwrap()
                    &&& final(self).queue_seq().last().link@ == tx@
                },
                Err(e) => {
                    &&& final(self).queue_seq() == old(self).queue_seq()
                    &&& (e == StateError::InvalidLink <==> !link_source_valid(tx@))
                    &&& (e == StateError::LookupFailed <==> link_source_valid(tx@) && duration
                        is None)
                    &&& (e == StateError::TimeOverflow <==> link_source_valid(tx@) && duration
                        is Some && spec_next_start(old(self).queue_seq(), now) + duration.unwrap()
                        > u64::MAX)
                },
            },
    {
        if let Err(e) = self.validate_tx(tx.clone()) {
            return Err(e);
        }
        let d = match duration {
            Some(d) => d,
            None => {
                return Err(StateError::LookupFailed);
            },
        };
        let start = if self.queue.len() == 0 {
            now
        } else {
            let tail = &self.queue[self.queue.len() - 1];
            let end = tail.start_time + tail.duration;
            if now >= end {
                now
            } else {
                end
            }
        };
        proof {
            assert(start == spec_next_start(self.queue_seq(), now));
        }
        if d > u64::MAX - start {
            return Err(StateError::TimeOverflow);
        }
        let Transaction::AddToQueue { url } = tx;
        let ghost q0 = self.queue@;
        self.queue.push_back(QueuedSong { start_time: start, duration: d, link: url });
        proof {
            assert(self.queue@.take(q0.len() as int) =~= q0);
            assert forall|i: int|
                0 <= i < self.queue@.len() - 1 implies (#[trigger] self.queue@[i]).start_time
                + self.queue@[i].duration <= self.queue@[i + 1].start_time by {
                if i < q0.len() - 1 {
                    assert(self.queue@[i] == q0[i]);
                    assert(self.queue@[i + 1] == q0[i + 1]);
                }
            }
        }
        Ok(())
    }
}

} // verus!
