//! How the rows of one snapshot are stored: all of them or none.
//!
//! The store is asked for one thing at a time: to take the snapshot row, then
//! each occurrence row in turn, then to commit. When it fails at any of these,
//! it is asked to roll back, and nothing else. The program that talks to the
//! store performs the [`StoreAction`] that is under way and reports whether it
//! went well.

use vstd::prelude::*;

verus! {

/// What the store is asked to do.
#[derive(Clone, Copy, Debug, PartialEq, Eq, Structural)]
pub enum StoreAction {
    /// Take the row of the snapshot.
    InsertSnapshot,
    /// Take the occurrence row at this position of the batch.
    InsertOccurrence(usize),
    /// Make what was taken lasting.
    Commit,
    /// Drop what was taken.
    Rollback,
}

/// How far the storing of a snapshot has come.
#[derive(Clone, Copy, Debug, PartialEq, Eq, Structural)]
pub enum Phase {
    /// The store is taking the snapshot row.
    InsertingSnapshot,
    /// The store has the snapshot row and the occurrence rows before this
    /// position, and is taking the one at this position.
    InsertingOccurrence(usize),
    /// The store has every row and is committing.
    Committing,
    /// The store failed and is rolling back.
    RollingBack,
    /// The snapshot and all its rows are stored.
    Committed,
    /// Nothing of the snapshot is stored.
    RolledBack,
}

/// What the store is asked to do in a phase, if anything.
pub open spec fn action_in(phase: Phase) -> Option<StoreAction> {
    match phase {
        Phase::InsertingSnapshot => Some(StoreAction::InsertSnapshot),
        Phase::InsertingOccurrence(k) => Some(StoreAction::InsertOccurrence(k)),
        Phase::Committing => Some(StoreAction::Commit),
        Phase::RollingBack => Some(StoreAction::Rollback),
        Phase::Committed => None,
        Phase::RolledBack => None,
    }
}

/// The phase that follows when the action of a phase went well (`ok`) or
/// failed, for a batch of `rows` occurrence rows.
pub open spec fn phase_after(rows: nat, phase: Phase, ok: bool) -> Phase {
    match phase {
        Phase::InsertingSnapshot => if !ok {
            Phase::RollingBack
        } else if rows == 0 {
            Phase::Committing
        } else {
            Phase::InsertingOccurrence(0)
        },
        Phase::InsertingOccurrence(k) => if !ok {
            Phase::RollingBack
        } else if k + 1 >= rows {
            Phase::Committing
        } else {
            Phase::InsertingOccurrence((k + 1) as usize)
        },
        Phase::Committing => if ok {
            Phase::Committed
        } else {
            Phase::RollingBack
        },
        Phase::RollingBack => Phase::RolledBack,
        Phase::Committed => Phase::Committed,
        Phase::RolledBack => Phase::RolledBack,
    }
}

/// The phase that is reached from `phase` when the actions that follow end as
/// `results` say, one after the other.
pub open spec fn phase_reached(rows: nat, phase: Phase, results: Seq<bool>) -> Phase
    decreases results.len(),
{
    if results.len() == 0 {
        phase
    } else {
        phase_reached(rows, phase_after(rows, phase, results[0]), results.skip(1))
    }
}

/// How many actions have to go well from a phase on for the snapshot to be
/// committed.
pub open spec fn actions_left(rows: nat, phase: Phase) -> nat {
    match phase {
        Phase::InsertingSnapshot => rows + 2,
        Phase::InsertingOccurrence(k) => (rows - k + 1) as nat,
        Phase::Committing => 1,
        _ => 0,
    }
}

/// Whether a phase is one in which rows are still being stored.
pub open spec fn is_storing(rows: nat, phase: Phase) -> bool {
    match phase {
        Phase::InsertingSnapshot => true,
        Phase::InsertingOccurrence(k) => k < rows,
        Phase::Committing => true,
        _ => false,
    }
}

/// Once the store is rolling back, the snapshot is never committed.
pub proof fn lemma_rollback_is_final(rows: nat, phase: Phase, results: Seq<bool>)
    requires
        phase == Phase::RollingBack || phase == Phase::RolledBack,
    ensures
        phase_reached(rows, phase, results) == Phase::RollingBack || phase_reached(
            rows,
            phase,
            results,
        ) == Phase::RolledBack,
        results.len() > 0 ==> phase_reached(rows, phase, results) == Phase::RolledBack,
    decreases results.len(),
{
    if results.len() > 0 {
        lemma_rollback_is_final(rows, phase_after(rows, phase, results[0]), results.skip(1));
    }
}

/// A snapshot is committed only if every action that was left went well.
pub proof fn lemma_committed_from(rows: nat, phase: Phase, results: Seq<bool>)
    requires
        is_storing(rows, phase),
        phase_reached(rows, phase, results) == Phase::Committed,
    ensures
        results.len() >= actions_left(rows, phase),
        forall|i: int| 0 <= i < actions_left(rows, phase) ==> results[i],
    decreases results.len(),
{
    if results.len() > 0 {
        let next = phase_after(rows, phase, results[0]);
        let rest = results.skip(1);
        if !results[0] {
            lemma_rollback_is_final(rows, next, rest);
        } else if next != Phase::Committed {
            lemma_committed_from(rows, next, rest);
            assert forall|i: int| 0 <= i < actions_left(rows, phase) implies results[i] by {
                if i > 0 {
                    assert(rest[i - 1] == results[i]);
                }
            }
        }
    }
}

/// Atomicity: the snapshot of a batch of `rows` occurrence rows is committed
/// only if the store took the snapshot row and every occurrence row and then
/// committed, each without failing.
pub proof fn lemma_committed_only_whole(rows: nat, results: Seq<bool>)
    requires
        phase_reached(rows, Phase::InsertingSnapshot, results) == Phase::Committed,
    ensures
        results.len() >= rows + 2,
        forall|i: int| 0 <= i < rows + 2 ==> results[i],
{
    lemma_committed_from(rows, Phase::InsertingSnapshot, results);
}

/// Atomicity: when an action fails while rows are being stored, the store is
/// asked to roll back, and after that the snapshot counts as not stored,
/// whatever happens then.
pub proof fn lemma_failure_rolls_back(rows: nat, phase: Phase, results: Seq<bool>)
    requires
        is_storing(rows, phase),
        results.len() >= 2,
        !results[0],
    ensures
        action_in(phase_after(rows, phase, false)) == Some(StoreAction::Rollback),
        phase_reached(rows, phase, results) == Phase::RolledBack,
{
    lemma_rollback_is_final(rows, phase_after(rows, phase, results[0]), results.skip(1));
}

/// The storing of one snapshot.
#[derive(Debug)]
pub struct Transaction {
    rows: usize,
    phase: Phase,
}

impl Transaction {
    #[verifier::type_invariant]
    spec fn valid(self) -> bool {
        self.phase matches Phase::InsertingOccurrence(k) ==> k < self.rows
    }

    /// The number of occurrence rows of the batch.
    pub closed spec fn rows(self) -> nat {
        self.rows as nat
    }

    /// How far the storing has come.
    pub closed spec fn phase(self) -> Phase {
        self.phase
    }

    /// The storing of a batch of `rows` occurrence rows, in a transaction that
    /// was just opened.
    pub fn begin(rows: usize) -> (t: Transaction)
        ensures
            t.rows() == rows,
            t.phase() == Phase::InsertingSnapshot,
    {
        Transaction { rows, phase: Phase::InsertingSnapshot }
    }

    /// What the store is to do now; `None` when the storing is over.
    pub fn action(&self) -> (a: Option<StoreAction>)
        ensures
            a == action_in(self.phase()),
            a matches Some(StoreAction::InsertOccurrence(k)) ==> k < self.rows(),
    {
        proof {
            use_type_invariant(self);
        }
        match self.phase {
            Phase::InsertingSnapshot => Some(StoreAction::InsertSnapshot),
            Phase::InsertingOccurrence(k) => Some(StoreAction::InsertOccurrence(k)),
            Phase::Committing => Some(StoreAction::Commit),
            Phase::RollingBack => Some(StoreAction::Rollback),
            Phase::Committed => None,
            Phase::RolledBack => None,
        }
    }

    /// Whether the snapshot and all its rows are stored.
    pub fn is_committed(&self) -> (b: bool)
        ensures
            b == (self.phase() == Phase::Committed),
    {
        match self.phase {
            Phase::Committed => true,
            _ => false,
        }
    }

    /// Takes note of how the action that was under way ended.
    pub fn advance(&mut self, ok: bool)
        ensures
            final(self).rows() == old(self).rows(),
            final(self).phase() == phase_after(old(self).rows(), old(self).phase(), ok),
    {
        proof {
            use_type_invariant(&*self);
        }
        let next = match self.phase {
            Phase::InsertingSnapshot => if !ok {
                Phase::RollingBack
            } else if self.rows == 0 {
                Phase::Committing
            } else {
                Phase::InsertingOccurrence(0)
            },
            Phase::InsertingOccurrence(k) => if !ok {
                Phase::RollingBack
            } else if k + 1 >= self.rows {
                Phase::Committing
            } else {
                Phase::InsertingOccurrence(k + 1)
            },
            Phase::Committing => if ok {
                Phase::Committed
            } else {
                Phase::RollingBack
            },
            Phase::RollingBack => Phase::RolledBack,
            Phase::Committed => Phase::Committed,
            Phase::RolledBack => Phase::RolledBack,
        };
        self.phase = next;
    }
}

} // verus!
