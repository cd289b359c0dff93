//! Transaction manager: a ticket dispenser for write transactions and a
//! commit counter that advances strictly in ticket order.
//!
//! - `begin_write` hands out the next ticket.
//! - `begin_read` returns the commit counter: the snapshot a reader sees.
//! - `commit(t)` succeeds only when every earlier ticket has committed or
//!   rolled back (the counter is `t - 1`), and then advances the counter to
//!   `t`. A caller whose turn has not come gets `Err("timeout")` and may
//!   retry after the earlier tickets finish; `commit_wait_step` is the rule
//!   for how long a waiting committer backs off before it gives up.
//! - `rollback(t)` advances the counter past `t` without any writes, once it
//!   is `t`'s turn.
//!
//! Readers at snapshot `S` see records with `created_tx <= S < deleted_tx`;
//! a rolled-back ticket created nothing, so skipping it is harmless.

use vstd::prelude::*;
use crate::types::TxId;

verus! {

/// The commit counter value at which ticket `tx` may finish: the ticket
/// before it (wrapping, so ticket 0 follows ticket 2^64 - 1).
pub open spec fn turn_of(tx: TxId) -> u64 {
    vstd::wrapping::u64_specs::wrapping_sub(tx, 1)
}

/// Failed commit attempts a committer makes while waiting for its turn
/// before it gives up with `"timeout"`.
pub const SPIN_LIMIT: u32 = 100_000;

/// What a committer whose turn has not come does next.
#[derive(Debug, Clone, Copy, PartialEq, Eq, Structural)]
pub enum CommitWait {
    /// Stop waiting: the commit times out.
    GiveUp,
    /// Spin once, then try again.
    Spin,
    /// Spin sixteen times, then try again.
    SpinBurst,
    /// Yield the thread, then try again.
    Yield,
}

/// The waiting rule after a failed attempt, `spins` failed attempts having
/// come before it: give up once the attempts exceed `SPIN_LIMIT`, else back
/// off the more the longer it has waited. Returns the new attempt count.
pub fn commit_wait_step(spins: u32) -> (r: (u32, CommitWait))
    requires
        spins <= SPIN_LIMIT,
    ensures
        r.0 == spins + 1,
        r.1 == (if r.0 > SPIN_LIMIT {
            CommitWait::GiveUp
        } else if r.0 < 16 {
            CommitWait::Spin
        } else if r.0 < 256 {
            CommitWait::SpinBurst
        } else {
            CommitWait::Yield
        }),
{
    let n = spins + 1;
    let w = if n > SPIN_LIMIT {
        CommitWait::GiveUp
    } else if n < 16 {
        CommitWait::Spin
    } else if n < 256 {
        CommitWait::SpinBurst
    } else {
        CommitWait::Yield
    };
    (n, w)
}

pub struct TxManager {
    /// Next ticket to hand out.
    next_tx_id: u64,
    /// Highest ticket committed or rolled back: the read snapshot.
    committed_tx_id: u64,
}

impl TxManager {
    /// The next ticket `begin_write` will hand out.
    pub closed spec fn next_ticket(&self) -> u64 {
        self.next_tx_id
    }

    /// The latest committed ticket.
    pub closed spec fn committed(&self) -> u64 {
        self.committed_tx_id
    }

    /// A fresh manager: the first ticket is 1 and nothing is committed.
    pub fn new() -> (tm: Self)
        ensures
            tm.next_ticket() == 1,
            tm.committed() == 0,
    {
        TxManager { next_tx_id: 1, committed_tx_id: 0 }
    }

    /// Begin a read-only transaction: its snapshot is the latest commit.
    pub fn begin_read(&self) -> (snap: TxId)
        ensures
            snap == self.committed(),
    {
        self.committed_tx_id
    }

    /// Begin a write transaction: take the next ticket (the counter wraps at
    /// 2^64, as an atomic fetch-add does).
    pub fn begin_write(&mut self) -> (tx: TxId)
        ensures
            tx == old(self).next_ticket(),
            final(self).next_ticket() == vstd::wrapping::u64_specs::wrapping_add(old(self).next_ticket(), 1),
            final(self).committed() == old(self).committed(),
    {
        let tx = self.next_tx_id;
        self.next_tx_id = self.next_tx_id.wrapping_add(1);
        tx
    }

    /// Commit ticket `tx_id` if it is its turn (every earlier ticket has
    /// finished): the read snapshot becomes `tx_id`. Otherwise nothing
    /// changes and the result is `Err("timeout")`: no other committer can
    /// advance the counter while this call holds the manager, so waiting
    /// here could not help.
    pub fn commit(&mut self, tx_id: TxId) -> (r: Result<(), &'static str>)
        ensures
            old(self).committed() == turn_of(tx_id) ==> r is Ok && final(self).committed() == tx_id,
            old(self).committed() != turn_of(tx_id) ==> (r matches Err(msg) && msg@ == "timeout"@),
            old(self).committed() != turn_of(tx_id) ==> final(self).committed() == old(self).committed(),
            final(self).next_ticket() == old(self).next_ticket(),
    {
        let expected = tx_id.wrapping_sub(1);
        if self.committed_tx_id == expected {
            self.committed_tx_id = tx_id;
            Ok(())
        } else {
            proof {
                reveal_strlit("timeout");
            }
            Err("timeout")
        }
    }

    /// Roll back ticket `tx_id` on its turn: the counter skips past it and
    /// later tickets may commit.
    pub fn rollback(&mut self, tx_id: TxId)
        requires
            old(self).committed() == turn_of(tx_id),
        ensures
            final(self).committed() == tx_id,
            final(self).next_ticket() == old(self).next_ticket(),
    {
        self.committed_tx_id = tx_id;
    }

    /// The latest committed ticket: the snapshot for new reads.
    pub fn latest_committed(&self) -> (c: TxId)
        ensures
            c == self.committed(),
    {
        self.committed_tx_id
    }
}

impl Default for TxManager {
    /// A fresh manager (see `TxManager::new`).
    fn default() -> (tm: Self)
        ensures
            tm.next_ticket() == 1,
            tm.committed() == 0,
    {
        Self::new()
    }
}

/// Ticket law: tickets handed out one after another are strictly
/// increasing as long as the counter has not wrapped.
pub proof fn lemma_tickets_increase(before: TxManager, after: TxManager, t1: TxId)
    requires
        t1 == before.next_ticket(),
        before.next_ticket() < u64::MAX,
        after.next_ticket() == vstd::wrapping::u64_specs::wrapping_add(before.next_ticket(), 1),
    ensures
        t1 < after.next_ticket(),
{
}

/// One `begin_write` as its contract states it: `before` hands out `t` and
/// becomes `after`.
pub open spec fn ticket_taken(before: TxManager, after: TxManager, t: TxId) -> bool {
    &&& t == before.next_ticket()
    &&& after.next_ticket() == vstd::wrapping::u64_specs::wrapping_add(before.next_ticket(), 1)
    &&& after.committed() == before.committed()
}

/// One `commit` or `rollback` of ticket `t` as their contracts state it:
/// on `t`'s turn the counter becomes `t`, otherwise nothing changes.
pub open spec fn ticket_finished(before: TxManager, after: TxManager, t: TxId) -> bool {
    &&& after.next_ticket() == before.next_ticket()
    &&& before.committed() == turn_of(t) ==> after.committed() == t
    &&& before.committed() != turn_of(t) ==> after.committed() == before.committed()
}

/// The tickets handed out by successive `begin_write` calls count up from
/// the first one, and the commit counter stays, while nothing wraps.
proof fn lemma_tickets_count_up(ms: Seq<TxManager>, ts: Seq<TxId>)
    requires
        ms.len() == ts.len() + 1,
        forall|i: int| 0 <= i < ts.len() ==> ticket_taken(#[trigger] ms[i], ms[i + 1], ts[i]),
        ms[0].next_ticket() + ts.len() <= u64::MAX + 1,
    ensures
        forall|i: int| 0 <= i < ts.len() ==> #[trigger] ts[i] == ms[0].next_ticket() + i,
        forall|i: int| 0 <= i < ms.len() ==> (#[trigger] ms[i]).committed() == ms[0].committed(),
        ts.len() > 0 ==> ms[ts.len() - 1].next_ticket() == ms[0].next_ticket() + ts.len() - 1,
    decreases ts.len(),
{
    if ts.len() > 0 {
        let k = ts.len() - 1;
        let ms2 = ms.drop_last();
        let ts2 = ts.drop_last();
        assert forall|i: int| 0 <= i < ts2.len() implies ticket_taken(#[trigger] ms2[i], ms2[i + 1], ts2[i]) by {
            assert(ms2[i] == ms[i] && ms2[i + 1] == ms[i + 1] && ts2[i] == ts[i]);
        }
        lemma_tickets_count_up(ms2, ts2);
        assert(ticket_taken(ms[k], ms[k + 1], ts[k]));
        if k > 0 {
            assert(ticket_taken(ms[k - 1], ms[k], ts[k - 1]));
            assert(ms2[k - 1] == ms[k - 1]);
            assert(ms[k - 1].next_ticket() == ms[0].next_ticket() + k - 1);
            assert(ms[k].next_ticket() == ms[0].next_ticket() + k);
        }
        assert forall|i: int| 0 <= i < ts.len() implies #[trigger] ts[i] == ms[0].next_ticket() + i by {
            if i < k {
                assert(ts2[i] == ts[i]);
            }
        }
        assert forall|i: int| 0 <= i < ms.len() implies (#[trigger] ms[i]).committed() == ms[0].committed() by {
            if i < ms.len() - 1 {
                assert(ms2[i] == ms[i]);
            } else {
                assert(ms2[k] == ms[k]);
            }
        }
    }
}

/// Ticket law: `k` successive `begin_write` calls, starting from the ticket
/// `n`, hand out exactly `n, n + 1, .., n + k - 1` (so distinct and strictly
/// increasing) and leave the commit counter as it was, as long as the
/// counter does not wrap.
pub proof fn lemma_tickets_consecutive(ms: Seq<TxManager>, ts: Seq<TxId>)
    requires
        ms.len() == ts.len() + 1,
        forall|i: int| 0 <= i < ts.len() ==> ticket_taken(#[trigger] ms[i], ms[i + 1], ts[i]),
        ms[0].next_ticket() + ts.len() <= u64::MAX + 1,
    ensures
        forall|i: int| 0 <= i < ts.len() ==> #[trigger] ts[i] == ms[0].next_ticket() + i,
        forall|i: int, j: int| 0 <= i < j < ts.len() ==> #[trigger] ts[i] < #[trigger] ts[j],
        forall|i: int| 0 <= i < ms.len() ==> (#[trigger] ms[i]).committed() == ms[0].committed(),
{
    lemma_tickets_count_up(ms, ts);
}

/// Counter law: from a state whose commit counter is below the next ticket,
/// taking a ticket (before the counter reaches its last value) keeps the
/// commit counter unchanged and still below the next ticket.
pub proof fn lemma_take_keeps_counter(before: TxManager, after: TxManager, t: TxId)
    requires
        before.committed() < before.next_ticket() < u64::MAX,
        ticket_taken(before, after, t),
    ensures
        after.committed() == before.committed(),
        after.committed() < after.next_ticket(),
{
}

/// Counter law: finishing (committing or rolling back) a ticket that was
/// handed out, from a state whose commit counter is below the next ticket,
/// never lowers the counter and keeps it below the next ticket.
pub proof fn lemma_finish_keeps_counter(before: TxManager, after: TxManager, t: TxId)
    requires
        before.committed() < before.next_ticket(),
        t < before.next_ticket(),
        ticket_finished(before, after, t),
    ensures
        before.committed() <= after.committed(),
        after.committed() < after.next_ticket(),
{
    if before.committed() == turn_of(t) {
        if t == 0 {
            assert(turn_of(t) == u64::MAX);
        } else {
            assert(turn_of(t) == t - 1);
        }
    }
}

/// One operation on the manager: taking a ticket (`begin_write`),
/// finishing one (`commit` or `rollback`), or reading (`begin_read`,
/// `latest_committed`, which change nothing).
pub enum TxStep {
    Take(TxId),
    Finish(TxId),
    Read,
}

/// `after` is `before` after `step`, as the operations' contracts state.
pub open spec fn tx_step(before: TxManager, after: TxManager, step: TxStep) -> bool {
    match step {
        TxStep::Take(t) => ticket_taken(before, after, t),
        TxStep::Finish(t) => ticket_finished(before, after, t),
        TxStep::Read => after == before,
    }
}

/// Counter law: over any run of operations from a manager whose commit
/// counter is below its next ticket (a fresh one is), where only handed-out
/// tickets are finished and no ticket is taken once the counter has reached
/// its last value, the commit counter never decreases and stays below the
/// next ticket. What `begin_read` and `latest_committed` return is that
/// counter at every point (their own contracts).
pub proof fn lemma_counter_over_run(ms: Seq<TxManager>, steps: Seq<TxStep>)
    requires
        ms.len() == steps.len() + 1,
        ms[0].committed() < ms[0].next_ticket(),
        forall|i: int| 0 <= i < steps.len() ==> tx_step(#[trigger] ms[i], ms[i + 1], steps[i]),
        forall|i: int| 0 <= i < steps.len() ==> (#[trigger] steps[i] is Take ==> ms[i].next_ticket() < u64::MAX),
        forall|i: int| 0 <= i < steps.len() ==> (#[trigger] steps[i] matches TxStep::Finish(t) ==> t < ms[i].next_ticket()),
    ensures
        forall|i: int| 0 <= i < ms.len() ==> (#[trigger] ms[i]).committed() < ms[i].next_ticket(),
        forall|i: int, j: int| 0 <= i <= j < ms.len() ==> (#[trigger] ms[i]).committed() <= (#[trigger] ms[j]).committed(),
    decreases steps.len(),
{
    if steps.len() > 0 {
        let k = steps.len() - 1;
        let ms2 = ms.drop_last();
        let st2 = steps.drop_last();
        assert forall|i: int| 0 <= i < st2.len() implies tx_step(#[trigger] ms2[i], ms2[i + 1], st2[i]) by {
            assert(tx_step(ms[i], ms[i + 1], steps[i]));
        }
        assert forall|i: int| 0 <= i < st2.len() implies (#[trigger] st2[i] is Take ==> ms2[i].next_ticket() < u64::MAX) by {
            assert(steps[i] is Take ==> ms[i].next_ticket() < u64::MAX);
        }
        assert forall|i: int| 0 <= i < st2.len() implies (#[trigger] st2[i] matches TxStep::Finish(t) ==> t < ms2[i].next_ticket()) by {
            assert(steps[i] matches TxStep::Finish(t) ==> t < ms[i].next_ticket());
        }
        lemma_counter_over_run(ms2, st2);
        let before = ms[k];
        let after = ms[k + 1];
        assert(ms2[k] == before);
        assert(before.committed() < before.next_ticket());
        assert(tx_step(before, after, steps[k]));
        match steps[k] {
            TxStep::Take(t) => {
                assert(steps[k] is Take ==> ms[k].next_ticket() < u64::MAX);
                lemma_take_keeps_counter(before, after, t);
            },
            TxStep::Finish(t) => {
                assert(steps[k] matches TxStep::Finish(t) ==> t < ms[k].next_ticket());
                lemma_finish_keeps_counter(before, after, t);
            },
            TxStep::Read => {},
        }
        assert forall|i: int| 0 <= i < ms.len() implies (#[trigger] ms[i]).committed() < ms[i].next_ticket() by {
            if i < ms.len() - 1 {
                assert(ms2[i] == ms[i]);
            }
        }
        assert forall|i: int, j: int| 0 <= i <= j < ms.len() implies (#[trigger] ms[i]).committed() <= (#[trigger] ms[j]).committed() by {
            if j < ms.len() - 1 {
                assert(ms2[i] == ms[i] && ms2[j] == ms[j]);
            } else if i < ms.len() - 1 {
                assert(ms2[i] == ms[i] && ms2[k] == ms[k]);
            }
        }
    }
}

} // verus!
