//! Timestamps, snapshots and the visibility rules between them.
use crate::mvcc::version::NO_END;
use std::collections::BTreeSet;
use vstd::prelude::*;

verus! {

/// A transaction: its timestamp, which is also the id that stamps its
/// writes, and the transactions that had begun and not finished at the
/// instant it began.
pub struct Txn {
    pub timestamp: u64,
    pub running_at_begin: BTreeSet<u64>,
}

impl Txn {
    /// Whether the writes of `writer_txn` are visible to this transaction:
    /// its own, or those of an older transaction that had finished when it
    /// began.
    pub open spec fn sees_spec(&self, writer_txn: u64) -> bool {
        self.timestamp == writer_txn || (self.timestamp > writer_txn
            && !self.running_at_begin@.contains(writer_txn))
    }

    /// Whether a version created by `begin` and ended by `end` is the one
    /// this transaction reads.
    pub open spec fn sees_version_spec(&self, begin: u64, end: u64) -> bool {
        self.sees_spec(begin) && !self.sees_spec(end)
    }

    /// The transaction whose write last touched a version: its creator while
    /// it is open, else the one that ended it.
    pub open spec fn last_writer(begin: u64, end: u64) -> u64 {
        if end == NO_END {
            begin
        } else {
            end
        }
    }

    /// Whether this transaction may put a newer version on top of the one
    /// given: only if it sees the last write to it.
    pub open spec fn can_add_newer_version_spec(&self, begin: u64, end: u64) -> bool {
        self.sees_spec(Self::last_writer(begin, end))
    }

    pub fn sees(&self, writer_txn: u64) -> (r: bool)
        ensures
            r == self.sees_spec(writer_txn),
    {
        self.timestamp == writer_txn || (self.timestamp > writer_txn
            && !self.running_at_begin.contains(&writer_txn))
    }

    pub fn sees_version(&self, begin: u64, end: u64) -> (r: bool)
        ensures
            r == self.sees_version_spec(begin, end),
    {
        self.sees(begin) && !self.sees(end)
    }

    pub fn can_add_newer_version(&self, begin: u64, end: u64) -> (r: bool)
        ensures
            r == self.can_add_newer_version_spec(begin, end),
    {
        let last_writer = if end == NO_END {
            begin
        } else {
            end
        };
        self.sees(last_writer)
    }
}

/// A transaction sees its own writes.
pub proof fn law_sees_own_writes(txn: Txn)
    ensures
        txn.sees_spec(txn.timestamp),
{
}

/// A transaction sees the writes of every transaction that began before it
/// and was no longer running when it began.
pub proof fn law_sees_earlier_finished(txn: Txn, writer: u64)
    requires
        writer < txn.timestamp,
        !txn.running_at_begin@.contains(writer),
    ensures
        txn.sees_spec(writer),
{
}

/// A transaction sees no write of a transaction that began after it.
pub proof fn law_later_writes_unseen(txn: Txn, writer: u64)
    requires
        writer > txn.timestamp,
    ensures
        !txn.sees_spec(writer),
{
}

/// A transaction sees no write of another that was running when it began,
/// even after that one commits.
pub proof fn law_running_writes_unseen(txn: Txn, writer: u64)
    requires
        txn.running_at_begin@.contains(writer),
        writer != txn.timestamp,
    ensures
        !txn.sees_spec(writer),
{
}

/// A transaction that has finished stays finished: neither a `begin`,
/// which only adds the next timestamp, nor a `finish` brings it back, and
/// timestamps only grow.
pub proof fn law_finished_stays_finished(active: Set<u64>, next: u64, writer: u64, other: u64)
    requires
        !active.contains(writer),
        writer < next,
        next < u64::MAX,
    ensures
        !active.insert(next).contains(writer),
        writer < next + 1,
        !active.remove(other).contains(writer),
{
}

/// A transaction that begins after another finished sees its writes: it
/// gets the next timestamp and a snapshot of the running set.
pub proof fn law_begin_sees_finished(txn: Txn, active: Set<u64>, next: u64, writer: u64)
    requires
        txn.timestamp == next,
        txn.running_at_begin@ == active,
        !active.contains(writer),
        writer < next,
    ensures
        txn.sees_spec(writer),
{
}

/// A chain of versions, newest first, as (begin, end) pairs: the newest is
/// live, each older one ended where the next newer one began, and begins
/// strictly decrease from the newest to the oldest.
pub open spec fn chain_ok(chain: Seq<(u64, u64)>) -> bool {
    &&& chain.len() > 0
    &&& chain[0].1 == NO_END
    &&& forall|i: int| 0 < i < chain.len() ==> #[trigger] chain[i].1 == chain[i - 1].0
    &&& forall|a: int, b: int| 0 <= a < b < chain.len() ==> #[trigger] chain[b].0 < #[trigger] chain[a].0
}

/// The first version of the chain, counting from `k`, that began at or
/// before `ts`.
proof fn first_begun(chain: Seq<(u64, u64)>, ts: u64, k: int) -> (i: int)
    requires
        chain_ok(chain),
        0 <= k < chain.len(),
        k == 0 || chain[k - 1].0 > ts,
        chain.last().0 <= ts,
    ensures
        k <= i < chain.len(),
        chain[i].0 <= ts,
        i == 0 || chain[i - 1].0 > ts,
    decreases chain.len() - k,
{
    if chain[k].0 <= ts {
        k
    } else {
        first_begun(chain, ts, k + 1)
    }
}

/// A transaction that began with nothing else running, no older than the
/// oldest version of a chain, sees exactly one version of it.
pub proof fn law_one_visible_version(txn: Txn, chain: Seq<(u64, u64)>)
    requires
        chain_ok(chain),
        txn.running_at_begin@ == Set::<u64>::empty(),
        chain.last().0 <= txn.timestamp,
        txn.timestamp < NO_END,
    ensures
        exists|i: int|
            0 <= i < chain.len() && txn.sees_version_spec(chain[i].0, chain[i].1) && forall|j: int|
                0 <= j < chain.len() && j != i ==> !txn.sees_version_spec(
                    #[trigger] chain[j].0,
                    chain[j].1,
                ),
{
    let ts = txn.timestamp;
    let i = first_begun(chain, ts, 0);
    assert(txn.sees_version_spec(chain[i].0, chain[i].1));
    assert forall|j: int| 0 <= j < chain.len() && j != i implies !txn.sees_version_spec(
        #[trigger] chain[j].0,
        chain[j].1,
    ) by {
        if j < i {
            assert(chain[i - 1].0 <= chain[j].0) by {
                if j < i - 1 {
                    assert(chain[i - 1].0 < chain[j].0);
                }
            }
        } else {
            assert(chain[j].1 == chain[j - 1].0);
            assert(chain[j - 1].0 <= chain[i].0) by {
                if i < j - 1 {
                    assert(chain[j - 1].0 < chain[i].0);
                }
            }
        }
    }
}

/// Hands out timestamps and remembers which transactions are running.
pub struct TxnManager {
    next_timestamp: u64,
    active: BTreeSet<u64>,
}

impl TxnManager {
    /// The next timestamp that `begin` hands out.
    pub closed spec fn next_timestamp_spec(&self) -> u64 {
        self.next_timestamp
    }

    /// The transactions that have begun and not finished.
    pub closed spec fn active_spec(&self) -> Set<u64> {
        self.active@
    }

    /// No transaction running; timestamps start at `next_timestamp`.
    pub fn new(next_timestamp: u64) -> (r: TxnManager)
        ensures
            r.next_timestamp_spec() == next_timestamp,
            r.active_spec() == Set::<u64>::empty(),
    {
        TxnManager { next_timestamp, active: BTreeSet::new() }
    }

    /// The next timestamp that `begin` hands out.
    pub fn next_timestamp(&self) -> (r: u64)
        ensures
            r == self.next_timestamp_spec(),
    {
        self.next_timestamp
    }

    /// Starts a transaction: the next timestamp, and a snapshot of the
    /// transactions running at this instant.
    pub fn begin(&mut self) -> (txn: Txn)
        requires
            old(self).next_timestamp_spec() < u64::MAX,
        ensures
            txn.timestamp == old(self).next_timestamp_spec(),
            txn.running_at_begin@ == old(self).active_spec(),
            final(self).next_timestamp_spec() == old(self).next_timestamp_spec() + 1,
            final(self).active_spec() == old(self).active_spec().insert(txn.timestamp),
    {
        let timestamp = self.next_timestamp;
        self.next_timestamp = self.next_timestamp + 1;
        let running_at_begin = self.active.clone();
        self.active.insert(timestamp);
        Txn { timestamp, running_at_begin }
    }

    /// The transaction stops running, so those that begin afterwards see its
    /// writes.
    pub fn finish(&mut self, timestamp: u64)
        ensures
            final(self).next_timestamp_spec() == old(self).next_timestamp_spec(),
            final(self).active_spec() == old(self).active_spec().remove(timestamp),
    {
        self.active.remove(&timestamp);
    }
}

} // verus!
