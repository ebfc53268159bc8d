//! The outbound batch accumulator.
//!
//! Locally submitted transactions are buffered here until the posting
//! tick drains them all at once into a single batch.  Enqueueing never
//! touches the network; draining is all-or-nothing, and an empty buffer
//! yields no batch at all.  A drained batch that fails to submit is not
//! retried or kept: that loss is accepted by design and left to the
//! caller to log.

use vstd::prelude::*;

verus! {

use crate::codec::Batch;
use crate::tx::Transaction;

/// Locally submitted transactions awaiting the next batch tick.
pub struct PendingOutbox {
    txs: Vec<Transaction>,
}

impl PendingOutbox {
    /// The pending transactions' links, in submission order.
    pub closed spec fn pending(&self) -> Seq<Seq<char>> {
        self.txs@.map_values(|t: Transaction| t@)
    }

    /// A fresh, empty outbox.
    pub fn new() -> (o: Self)
        ensures
            o.pending() == Seq::<Seq<char>>::empty(),
    {
        let o = PendingOutbox { txs: Vec::new() };
        proof {
            assert(o.pending() =~= Seq::<Seq<char>>::empty());
        }
        o
    }

    /// How many transactions are pending.
    pub fn len(&self) -> (n: usize)
        ensures
            n == self.pending().len(),
    {
        self.txs.len()
    }

    /// Append one locally submitted transaction.  Never blocks and
    /// never drops an earlier submission.
    pub fn enqueue_local(&mut self, tx: Transaction)
        ensures
            final(self).pending() == old(self).pending().push(tx@),
    {
        let ghost p0 = self.pending();
        let ghost t0 = self.txs@;
        let ghost v = tx@;
        self.txs.push(tx);
        proof {
            assert forall|k: int|
                0 <= k < self.txs@.len() implies #[trigger] self.pending()[k] == p0.push(v)[k] by {
                assert(self.pending()[k] == self.txs@[k]@);
                if k < t0.len() {
                    assert(self.txs@[k] == t0[k]);
                    assert(p0[k] == t0[k]@);
                }
            }
            assert(self.pending() =~= p0.push(v));
        }
    }

    /// Atomically take everything pending as one batch: the whole
    /// buffer when it holds anything, nothing when it is empty.  The
    /// buffer is empty afterwards either way.
    pub fn take_batch(&mut self) -> (r: Option<Batch>)
        ensures
            final(self).pending() == Seq::<Seq<char>>::empty(),
            match r {
                Some(b) => old(self).pending().len() > 0 && b@ == old(self).pending(),
                None => old(self).pending().len() == 0,
            },
    {
        let ghost t0 = self.txs@;
        let mut out: Vec<Transaction> = Vec::new();
        out.append(&mut self.txs);
        proof {
            assert(out@ =~= t0);
            assert(self.pending() =~= Seq::<Seq<char>>::empty());
        }
        if out.len() == 0 {
            None
        } else {
            let b = Batch(out);
            proof {
                assert(b@ =~= t0.map_values(|t: Transaction| t@));
            }
            Some(b)
        }
    }
}

} // verus!
