//! Replay/live synchronization and the block apply pipeline.
//!
//! Historical blocks are replayed from a start height; a live feed can
//! re-deliver heights the replay already covered.  The cursor records the
//! last applied height and admits each height at most once, in strictly
//! increasing order, so a re-delivered block is never applied twice
//! (`lemma_redelivery_skipped`).  A block's payloads are decoded
//! independently — a malformed payload is skipped, never aborting its
//! siblings — and the decoded transactions are applied in order:
//! ascending height, payloads in list order, each payload's batch in
//! list order (`lemma_applied_concat` with `apply_block`'s contract).

use vstd::prelude::*;

verus! {

use crate::codec::Batch;
use crate::codec::decode_batch;
use crate::codec::spec_decode_links;
use crate::codec::vecs_view;
use crate::state::QueuedSong;
use crate::state::State;
use crate::state::spec_next_start;
use crate::tx::Transaction;
use crate::tx::link_source_valid;

/// Whether a block at `height` is admitted, given the height last
/// applied and the replay start height.
pub open spec fn spec_should_apply(last: Option<u64>, start: u64, height: u64) -> bool {
    match last {
        None => height >= start,
        Some(l) => height > l,
    }
}

/// Once a height is applied, a re-delivery of the same height is not
/// admitted again: applying is idempotent across the replay/live
/// boundary.
pub proof fn lemma_redelivery_skipped(last: Option<u64>, start: u64, height: u64)
    requires
        spec_should_apply(last, start, height),
    ensures
        !spec_should_apply(Some(height), start, height),
{
}

/// Admitted heights are strictly increasing.
pub proof fn lemma_heights_increase(last: u64, start: u64, height: u64)
    ensures
        spec_should_apply(Some(last), start, height) ==> height > last,
{
}

/// The replay cursor: the start height, the height last applied, and
/// whether the historical replay has completed.
pub struct SyncCursor {
    start_height: u64,
    last_applied: Option<u64>,
    caught_up: bool,
}

impl SyncCursor {
    /// The replay start height.
    pub closed spec fn spec_start(&self) -> u64 {
        self.start_height
    }

    /// The height last admitted, if any.
    pub closed spec fn spec_last(&self) -> Option<u64> {
        self.last_applied
    }

    /// Whether the historical replay has signalled completion.
    pub closed spec fn spec_caught_up(&self) -> bool {
        self.caught_up
    }

    /// A fresh cursor: nothing applied, replay not complete.
    pub fn new(start_height: u64) -> (c: Self)
        ensures
            c.spec_start() == start_height,
            c.spec_last() is None,
            !c.spec_caught_up(),
    {
        SyncCursor { start_height, last_applied: None, caught_up: false }
    }

    /// Whether the historical replay has signalled completion.
    pub fn is_caught_up(&self) -> (r: bool)
        ensures
            r == self.spec_caught_up(),
    {
        self.caught_up
    }

    /// Record that the historical replay completed.  Idempotent: the
    /// final state does not depend on how often this was called.
    pub fn mark_caught_up(&mut self)
        ensures
            final(self).spec_caught_up(),
            final(self).spec_start() == old(self).spec_start(),
            final(self).spec_last() == old(self).spec_last(),
    {
        self.caught_up = true;
    }

    /// Whether a block at `height` would be admitted now.
    pub fn should_apply(&self, height: u64) -> (r: bool)
        ensures
            r == spec_should_apply(self.spec_last(), self.spec_start(), height),
    {
        match self.last_applied {
            None => height >= self.start_height,
            Some(l) => height > l,
        }
    }

    /// Admit a block at `height` at most once: report whether it is to
    /// be applied, and if so record it.
    pub fn begin_block(&mut self, height: u64) -> (r: bool)
        ensures
            r == spec_should_apply(old(self).spec_last(), old(self).spec_start(), height),
            final(self).spec_last() == if r {
                Some(height)
            } else {
                old(self).spec_last()
            },
            final(self).spec_start() == old(self).spec_start(),
            final(self).spec_caught_up() == old(self).spec_caught_up(),
    {
        if self.should_apply(height) {
            self.last_applied = Some(height);
            true
        } else {
            false
        }
    }
}

/// The transactions of one block, flattened: each payload decoded on its
/// own, a malformed payload contributing nothing, in payload order and
/// batch order.
pub open spec fn spec_block_links(ps: Seq<Seq<u8>>) -> Seq<Seq<char>>
    decreases ps.len(),
{
    if ps.len() == 0 {
        seq![]
    } else {
        (match spec_decode_links(ps[0]) {
            Some(ls) => ls,
            None => seq![],
        }) + spec_block_links(ps.skip(1))
    }
}

/// Decode every payload of one block from position `i` on.
fn decode_block_from(payloads: &Vec<Vec<u8>>, i: usize) -> (txs: Vec<Transaction>)
    requires
        i <= payloads@.len(),
    ensures
        txs@.map_values(|t: Transaction| t@) == spec_block_links(vecs_view(payloads@).skip(i as int)),
    decreases payloads@.len() - i,
{
    let ghost ps = vecs_view(payloads@);
    if i == payloads.len() {
        let txs: Vec<Transaction> = Vec::new();
        proof {
            assert(ps.skip(i as int) =~= Seq::<Seq<u8>>::empty());
            assert(txs@.map_values(|t: Transaction| t@) =~= spec_block_links(ps.skip(i as int)));
        }
        txs
    } else {
        proof {
            assert(ps.skip(i as int)[0] == ps[i as int]);
            assert(ps[i as int] == payloads@[i as int]@);
            assert(ps.skip(i as int).skip(1) =~= ps.skip(i + 1));
        }
        let mut rest = decode_block_from(payloads, i + 1);
        let ghost rest0 = rest@;
        match decode_batch(&payloads[i]) {
            Ok(b) => {
                let Batch(mut txs) = b;
                let ghost head = txs@;
                txs.append(&mut rest);
                proof {
                    let f = |t: Transaction| t@;
                    assert forall|k: int| 0 <= k < txs@.len() implies #[trigger] txs@.map_values(
                        f,
                    )[k] == (head.map_values(f) + rest0.map_values(f))[k] by {
                        if k < head.len() {
                            assert(txs@[k] == head[k]);
                            assert(head.map_values(f)[k] == f(head[k]));
                        } else {
                            assert(txs@[k] == rest0[k - head.len()]);
                            assert(rest0.map_values(f)[k - head.len()] == f(rest0[k
                                - head.len()]));
                        }
                    }
                    assert(txs@.map_values(f) =~= head.map_values(f) + rest0.map_values(f));
                }
                txs
            },
            Err(_) => {
                proof {
                    assert(Seq::<Seq<char>>::empty() + rest0.map_values(|t: Transaction| t@)
                        =~= rest0.map_values(|t: Transaction| t@));
                }
                rest
            },
        }
    }
}

/// Decode one block's payloads into its ordered transaction list.
/// Each payload is decoded independently: a malformed payload is
/// skipped, and the remaining payloads still contribute, in order.
pub fn decode_block(payloads: &Vec<Vec<u8>>) -> (txs: Vec<Transaction>)
    ensures
        txs@.map_values(|t: Transaction| t@) == spec_block_links(vecs_view(payloads@)),
{
    let txs = decode_block_from(payloads, 0);
    proof {
        assert(vecs_view(payloads@).skip(0) =~= vecs_view(payloads@));
    }
    txs
}

/// The links of a run of scheduled entries, in order.
pub open spec fn all_links(q: Seq<QueuedSong>) -> Seq<Seq<char>> {
    q.map_values(|s: QueuedSong| s.link@)
}

/// Eviction reorders nothing: however many entries move from the front
/// of the queue to the back of the history, the history and queue read
/// together carry the same links in the same order.
pub proof fn lemma_evict_preserves_log(h: Seq<QueuedSong>, q: Seq<QueuedSong>, c: int)
    requires
        0 <= c <= q.len(),
    ensures
        all_links(h + q.take(c)) + all_links(q.skip(c)) == all_links(h + q),
{
    let lhs = all_links(h + q.take(c)) + all_links(q.skip(c));
    assert forall|k: int| 0 <= k < lhs.len() implies lhs[k] == all_links(h + q)[k] by {
        assert(all_links(h + q)[k] == (h + q)[k].link@);
        if k < h.len() + c {
            assert(all_links(h + q.take(c))[k] == (h + q.take(c))[k].link@);
        } else {
            assert(all_links(q.skip(c))[k - h.len() - c] == q.skip(c)[k - h.len() - c].link@);
        }
    }
    assert(lhs =~= all_links(h + q));
}

/// The end of the last playback window, or `now` for an empty queue:
/// the earliest time the next entry may start.
pub open spec fn tail_end(q: Seq<QueuedSong>, now: u64) -> int {
    if q.len() == 0 {
        now as int
    } else {
        q.last().start_time + q.last().duration
    }
}

/// Which links an ordered run of transactions adds to a queue whose
/// last window ends at `e`: a transaction is applied when its link is
/// valid, its duration lookup succeeded, and its window fits; a failed
/// transaction is skipped and changes nothing.
pub open spec fn spec_applied_links(
    e: int,
    now: u64,
    links: Seq<Seq<char>>,
    durs: Seq<Option<u64>>,
) -> Seq<Seq<char>>
    decreases links.len(),
{
    if links.len() == 0 || durs.len() == 0 {
        seq![]
    } else {
        let start = if now as int >= e {
            now as int
        } else {
            e
        };
        if link_source_valid(links[0]) && durs[0] is Some && start + durs[0].unwrap()
            <= u64::MAX {
            seq![links[0]] + spec_applied_links(
                start + durs[0].unwrap() as int,
                now,
                links.skip(1),
                durs.skip(1),
            )
        } else {
            spec_applied_links(e, now, links.skip(1), durs.skip(1))
        }
    }
}

/// Where the last window ends after the same run.
pub open spec fn spec_applied_end(
    e: int,
    now: u64,
    links: Seq<Seq<char>>,
    durs: Seq<Option<u64>>,
) -> int
    decreases links.len(),
{
    if links.len() == 0 || durs.len() == 0 {
        e
    } else {
        let start = if now as int >= e {
            now as int
        } else {
            e
        };
        if link_source_valid(links[0]) && durs[0] is Some && start + durs[0].unwrap()
            <= u64::MAX {
            spec_applied_end(start + durs[0].unwrap() as int, now, links.skip(1), durs.skip(1))
        } else {
            spec_applied_end(e, now, links.skip(1), durs.skip(1))
        }
    }
}

/// The entries the same run adds: the link, scheduled start and
/// duration of each applied transaction, in order.
pub open spec fn spec_applied_entries(
    e: int,
    now: u64,
    links: Seq<Seq<char>>,
    durs: Seq<Option<u64>>,
) -> Seq<(Seq<char>, int, u64)>
    decreases links.len(),
{
    if links.len() == 0 || durs.len() == 0 {
        seq![]
    } else {
        let start = if now as int >= e {
            now as int
        } else {
            e
        };
        if link_source_valid(links[0]) && durs[0] is Some && start + durs[0].unwrap()
            <= u64::MAX {
            seq![(links[0], start, durs[0].unwrap())] + spec_applied_entries(
                start + durs[0].unwrap() as int,
                now,
                links.skip(1),
                durs.skip(1),
            )
        } else {
            spec_applied_entries(e, now, links.skip(1), durs.skip(1))
        }
    }
}

/// Appending one more transaction to a run extends the applied links at
/// the end, under the window end the run left behind.
proof fn lemma_applied_snoc(
    e: int,
    now: u64,
    links: Seq<Seq<char>>,
    durs: Seq<Option<u64>>,
    l: Seq<char>,
    d: Option<u64>,
)
    requires
        links.len() == durs.len(),
    ensures
        ({
            let e2 = spec_applied_end(e, now, links, durs);
            let start = if now as int >= e2 {
                now as int
            } else {
                e2
            };
            let hit = link_source_valid(l) && d is Some && start + d.unwrap() <= u64::MAX;
            &&& spec_applied_links(e, now, links.push(l), durs.push(d)) == spec_applied_links(
                e,
                now,
                links,
                durs,
            ) + (if hit {
                seq![l]
            } else {
                seq![]
            })
            &&& spec_applied_end(e, now, links.push(l), durs.push(d)) == (if hit {
                start + d.unwrap()
            } else {
                e2
            })
            &&& spec_applied_entries(e, now, links.push(l), durs.push(d))
                == spec_applied_entries(e, now, links, durs) + (if hit {
                seq![(l, start, d.unwrap())]
            } else {
                seq![]
            })
        }),
    decreases links.len(),
{
    if links.len() == 0 {
        reveal_with_fuel(spec_applied_links, 3);
        reveal_with_fuel(spec_applied_end, 3);
        reveal_with_fuel(spec_applied_entries, 3);
        assert(links.push(l)[0] == l);
        assert(durs.push(d)[0] == d);
        assert(links.push(l).skip(1) =~= Seq::<Seq<char>>::empty());
        assert(durs.push(d).skip(1) =~= Seq::<Option<u64>>::empty());
        let start = if now as int >= e {
            now as int
        } else {
            e
        };
        assert(spec_applied_links(e, now, links, durs) =~= Seq::<Seq<char>>::empty());
        assert(spec_applied_end(e, now, links, durs) == e);
        assert(spec_applied_entries(e, now, links, durs) =~= Seq::<
            (Seq<char>, int, u64),
        >::empty());
        if link_source_valid(l) && d is Some && start + d.unwrap() <= u64::MAX {
            assert(spec_applied_links(
                start + d.unwrap() as int,
                now,
                links.push(l).skip(1),
                durs.push(d).skip(1),
            ) =~= Seq::<Seq<char>>::empty());
            assert(spec_applied_links(e, now, links.push(l), durs.push(d)) == seq![l] + Seq::<
                Seq<char>,
            >::empty());
            assert(seq![l] + Seq::<Seq<char>>::empty() =~= seq![l]);
            assert(Seq::<Seq<char>>::empty() + seq![l] =~= seq![l]);
            assert(spec_applied_entries(
                start + d.unwrap() as int,
                now,
                links.push(l).skip(1),
                durs.push(d).skip(1),
            ) =~= Seq::<(Seq<char>, int, u64)>::empty());
            assert(spec_applied_entries(e, now, links.push(l), durs.push(d)) == seq![
                (l, start, d.unwrap()),
            ] + Seq::<(Seq<char>, int, u64)>::empty());
            assert(seq![(l, start, d.unwrap())] + Seq::<(Seq<char>, int, u64)>::empty() =~= seq![
                (l, start, d.unwrap()),
            ]);
            assert(Seq::<(Seq<char>, int, u64)>::empty() + seq![(l, start, d.unwrap())] =~= seq![
                (l, start, d.unwrap()),
            ]);
        } else {
            assert(spec_applied_links(e, now, links.push(l), durs.push(d)) =~= Seq::<
                Seq<char>,
            >::empty());
            assert(Seq::<Seq<char>>::empty() + Seq::<Seq<char>>::empty() =~= Seq::<
                Seq<char>,
            >::empty());
            assert(spec_applied_entries(e, now, links.push(l), durs.push(d)) =~= Seq::<
                (Seq<char>, int, u64),
            >::empty());
            assert(Seq::<(Seq<char>, int, u64)>::empty() + Seq::<
                (Seq<char>, int, u64),
            >::empty() =~= Seq::<(Seq<char>, int, u64)>::empty());
        }
    } else {
        assert(links.push(l)[0] == links[0]);
        assert(durs.push(d)[0] == durs[0]);
        assert(links.push(l).skip(1) =~= links.skip(1).push(l));
        assert(durs.push(d).skip(1) =~= durs.skip(1).push(d));
        let start = if now as int >= e {
            now as int
        } else {
            e
        };
        if link_source_valid(links[0]) && durs[0] is Some && start + durs[0].unwrap()
            <= u64::MAX {
            lemma_applied_snoc(
                start + durs[0].unwrap() as int,
                now,
                links.skip(1),
                durs.skip(1),
                l,
                d,
            );
            assert(seq![links[0]] + (spec_applied_links(
                start + durs[0].unwrap() as int,
                now,
                links.skip(1),
                durs.skip(1),
            ) + (if link_source_valid(l) && d is Some && ({
                let e2 = spec_applied_end(e, now, links, durs);
                let st = if now as int >= e2 {
                    now as int
                } else {
                    e2
                };
                st + d.unwrap() <= u64::MAX
            }) {
                seq![l]
            } else {
                seq![]
            })) =~= (seq![links[0]] + spec_applied_links(
                start + durs[0].unwrap() as int,
                now,
                links.skip(1),
                durs.skip(1),
            )) + (if link_source_valid(l) && d is Some && ({
                let e2 = spec_applied_end(e, now, links, durs);
                let st = if now as int >= e2 {
                    now as int
                } else {
                    e2
                };
                st + d.unwrap() <= u64::MAX
            }) {
                seq![l]
            } else {
                seq![]
            }));
            let tail_entries = spec_applied_entries(
                start + durs[0].unwrap() as int,
                now,
                links.skip(1),
                durs.skip(1),
            );
            let e2 = spec_applied_end(e, now, links, durs);
            let st = if now as int >= e2 {
                now as int
            } else {
                e2
            };
            let snoc_entry: Seq<(Seq<char>, int, u64)> = if link_source_valid(l) && d is Some
                && st + d.unwrap() <= u64::MAX {
                seq![(l, st, d.unwrap())]
            } else {
                seq![]
            };
            assert(seq![(links[0], start, durs[0].unwrap())] + (tail_entries + snoc_entry) =~= (
            seq![(links[0], start, durs[0].unwrap())] + tail_entries) + snoc_entry);
        } else {
            lemma_applied_snoc(e, now, links.skip(1), durs.skip(1), l, d);
        }
    }
}

/// Ordering across consecutive runs: applying two runs one after the
/// other adds the first run's applied links and then the second run's,
/// the second starting from the window end the first left behind.  With
/// `apply_block`'s contract this gives the ordering guarantee: heights
/// applied in ascending order, each height's payloads in list order,
/// each payload's batch in list order, appear concatenated in that
/// order.
pub proof fn lemma_applied_concat(
    e: int,
    now: u64,
    l1: Seq<Seq<char>>,
    d1: Seq<Option<u64>>,
    l2: Seq<Seq<char>>,
    d2: Seq<Option<u64>>,
)
    requires
        l1.len() == d1.len(),
    ensures
        spec_applied_links(e, now, l1 + l2, d1 + d2) == spec_applied_links(e, now, l1, d1)
            + spec_applied_links(spec_applied_end(e, now, l1, d1), now, l2, d2),
        spec_applied_end(e, now, l1 + l2, d1 + d2) == spec_applied_end(
            spec_applied_end(e, now, l1, d1),
            now,
            l2,
            d2,
        ),
        spec_applied_entries(e, now, l1 + l2, d1 + d2) == spec_applied_entries(e, now, l1, d1)
            + spec_applied_entries(spec_applied_end(e, now, l1, d1), now, l2, d2),
    decreases l1.len(),
{
    if l1.len() == 0 {
        assert(l1 + l2 =~= l2);
        assert(d1 + d2 =~= d2);
    } else {
        assert((l1 + l2)[0] == l1[0]);
        assert((d1 + d2)[0] == d1[0]);
        assert((l1 + l2).skip(1) =~= l1.skip(1) + l2);
        assert((d1 + d2).skip(1) =~= d1.skip(1) + d2);
        let start = if now as int >= e {
            now as int
        } else {
            e
        };
        if link_source_valid(l1[0]) && d1[0] is Some && start + d1[0].unwrap() <= u64::MAX {
            let e1 = start + d1[0].unwrap() as int;
            lemma_applied_concat(e1, now, l1.skip(1), d1.skip(1), l2, d2);
            assert(seq![l1[0]] + (spec_applied_links(e1, now, l1.skip(1), d1.skip(1))
                + spec_applied_links(
                spec_applied_end(e1, now, l1.skip(1), d1.skip(1)),
                now,
                l2,
                d2,
            )) =~= (seq![l1[0]] + spec_applied_links(e1, now, l1.skip(1), d1.skip(1)))
                + spec_applied_links(
                spec_applied_end(e1, now, l1.skip(1), d1.skip(1)),
                now,
                l2,
                d2,
            ));
            let head = seq![(l1[0], start, d1[0].unwrap())];
            assert(head + (spec_applied_entries(e1, now, l1.skip(1), d1.skip(1))
                + spec_applied_entries(
                spec_applied_end(e1, now, l1.skip(1), d1.skip(1)),
                now,
                l2,
                d2,
            )) =~= (head + spec_applied_entries(e1, now, l1.skip(1), d1.skip(1)))
                + spec_applied_entries(
                spec_applied_end(e1, now, l1.skip(1), d1.skip(1)),
                now,
                l2,
                d2,
            ));
        } else {
            lemma_applied_concat(e, now, l1.skip(1), d1.skip(1), l2, d2);
        }
    }
}

/// Apply one block's decoded transactions to the state, in order, with
/// each transaction's externally resolved duration.  A failed
/// transaction is skipped; the queue gains exactly the applied links at
/// its tail, the history is untouched, and the entries already queued
/// stay as they are.
#[verifier::rlimit(80)]
pub fn apply_block(
    state: &mut State,
    txs: &Vec<Transaction>,
    now: u64,
    durations: &Vec<Option<u64>>,
)
    requires
        old(state).wf(),
        durations@.len() == txs@.len(),
    ensures
        final(state).wf(),
        final(state).history_seq() == old(state).history_seq(),
        final(state).queue_seq().take(old(state).queue_seq().len() as int) == old(
            state,
        ).queue_seq(),
        all_links(final(state).queue_seq()) == all_links(old(state).queue_seq())
            + spec_applied_links(
            tail_end(old(state).queue_seq(), now),
            now,
            txs@.map_values(|t: Transaction| t@),
            durations@,
        ),
        ({
            let added = spec_applied_entries(
                tail_end(old(state).queue_seq(), now),
                now,
                txs@.map_values(|t: Transaction| t@),
                durations@,
            );
            &&& final(state).queue_seq().len() == old(state).queue_seq().len() + added.len()
            &&& forall|k: int|
                0 <= k < added.len() ==> {
                    &&& (#[trigger] final(state).queue_seq()[old(state).queue_seq().len()
                        + k]).link@ == added[k].0
                    &&& final(state).queue_seq()[old(state).queue_seq().len() + k].start_time
                        == added[k].1
                    &&& final(state).queue_seq()[old(state).queue_seq().len() + k].duration
                        == added[k].2
                }
        }),
{
    let ghost q0 = old(state).queue_seq();
    let ghost e0 = tail_end(q0, now);
    let ghost links = txs@.map_values(|t: Transaction| t@);
    let mut i: usize = 0;
    while i < txs.len()
        invariant
            state.wf(),
            i <= txs@.len(),
            durations@.len() == txs@.len(),
            links == txs@.map_values(|t: Transaction| t@),
            state.history_seq() == old(state).history_seq(),
            state.queue_seq().take(q0.len() as int) == q0,
            q0 == old(state).queue_seq(),
            e0 == tail_end(q0, now),
            all_links(state.queue_seq()) == all_links(q0) + spec_applied_links(
                e0,
                now,
                links.take(i as int),
                durations@.take(i as int),
            ),
            tail_end(state.queue_seq(), now) == spec_applied_end(
                e0,
                now,
                links.take(i as int),
                durations@.take(i as int),
            ),
            state.queue_seq().len() == q0.len() + spec_applied_entries(
                e0,
                now,
                links.take(i as int),
                durations@.take(i as int),
            ).len(),
            forall|k: int|
                0 <= k < spec_applied_entries(
                    e0,
                    now,
                    links.take(i as int),
                    durations@.take(i as int),
                ).len() ==> {
                    &&& (#[trigger] state.queue_seq()[q0.len() + k]).link@
                        == spec_applied_entries(
                        e0,
                        now,
                        links.take(i as int),
                        durations@.take(i as int),
                    )[k].0
                    &&& state.queue_seq()[q0.len() + k].start_time == spec_applied_entries(
                        e0,
                        now,
                        links.take(i as int),
                        durations@.take(i as int),
                    )[k].1
                    &&& state.queue_seq()[q0.len() + k].duration == spec_applied_entries(
                        e0,
                        now,
                        links.take(i as int),
                        durations@.take(i as int),
                    )[k].2
                },
        decreases txs@.len() - i,
    {
        let ghost qcur = state.queue_seq();
        let ghost ecur = spec_applied_end(e0, now, links.take(i as int), durations@.take(i as int));
        let ghost prev_entries = spec_applied_entries(
            e0,
            now,
            links.take(i as int),
            durations@.take(i as int),
        );
        let tx = txs[i].clone();
        let d = durations[i];
        proof {
            assert(links[i as int] == txs@[i as int]@);
            assert(tx@ == links[i as int]);
            assert(spec_next_start(qcur, now) == (if now as int >= ecur {
                now as int
            } else {
                ecur
            }));
        }
        let r = state.process_tx(tx, now, d);
        proof {
            lemma_applied_snoc(e0, now, links.take(i as int), durations@.take(i as int), links[i as int], d);
            assert(links.take(i + 1) =~= links.take(i as int).push(links[i as int]));
            assert(durations@.take(i + 1) =~= durations@.take(i as int).push(durations@[i as int]));
            let ghost next_entries = spec_applied_entries(
                e0,
                now,
                links.take(i + 1),
                durations@.take(i + 1),
            );
            if r is Ok {
                assert(state.queue_seq().last().link@ == links[i as int]);
                assert(next_entries == prev_entries + seq![
                    (links[i as int], spec_next_start(qcur, now), d.unwrap()),
                ]);
                assert(next_entries[prev_entries.len() as int] == (
                    links[i as int],
                    spec_next_start(qcur, now),
                    d.unwrap(),
                ));
                assert(state.queue_seq()[q0.len() + prev_entries.len() as int]
                    == state.queue_seq().last());
                assert forall|k: int| 0 <= k < prev_entries.len() implies (
                #[trigger] state.queue_seq()[q0.len() + k]).link@ == next_entries[k].0
                    && state.queue_seq()[q0.len() + k].start_time == next_entries[k].1
                    && state.queue_seq()[q0.len() + k].duration == next_entries[k].2 by {
                    assert(state.queue_seq().take(qcur.len() as int)[q0.len() + k]
                        == state.queue_seq()[q0.len() + k]);
                    assert(qcur[q0.len() + k].link@ == prev_entries[k].0);
                    assert(next_entries[k] == prev_entries[k]);
                }
                assert forall|k: int|
                    0 <= k < state.queue_seq().len() implies #[trigger] all_links(
                    state.queue_seq(),
                )[k] == (all_links(qcur) + seq![links[i as int]])[k] by {
                    if k < qcur.len() {
                        assert(state.queue_seq().take(qcur.len() as int)[k]
                            == state.queue_seq()[k]);
                        assert(all_links(qcur)[k] == qcur[k].link@);
                    }
                }
                assert(all_links(state.queue_seq()) =~= all_links(qcur) + seq![links[i as int]]);
                assert(all_links(qcur) + seq![links[i as int]] =~= all_links(q0)
                    + spec_applied_links(
                    e0,
                    now,
                    links.take(i + 1),
                    durations@.take(i + 1),
                ));
            } else {
                assert(all_links(state.queue_seq()) == all_links(q0) + spec_applied_links(
                    e0,
                    now,
                    links.take(i + 1),
                    durations@.take(i + 1),
                ));
                assert(next_entries == prev_entries + Seq::<(Seq<char>, int, u64)>::empty());
                assert(next_entries =~= prev_entries);
            }
            assert(state.queue_seq().take(q0.len() as int) =~= q0);
        }
        i = i + 1;
    }
    proof {
        assert(links.take(txs@.len() as int) =~= links);
        assert(durations@.take(txs@.len() as int) =~= durations@);
    }
}

} // verus!
