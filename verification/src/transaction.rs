//! The bookkeeping of a backend transaction: which SQL statement ends it, and
//! that it is ended at most once (by commit, rollback, or rollback on drop).

use vstd::prelude::*;

verus! {

/// How a transaction is to end.
#[derive(Debug, Clone, Copy, PartialEq, Eq)]
pub enum Outcome {
    Commit,
    Rollback,
}

/// The statement that ends a transaction with `outcome`.
pub open spec fn end_statement(outcome: Outcome) -> Seq<char> {
    match outcome {
        Outcome::Commit => "COMMIT"@,
        Outcome::Rollback => "ROLLBACK"@,
    }
}

/// The statement to run to end a transaction with `outcome`: none once it has ended.
pub open spec fn planned_end(ended: bool, outcome: Outcome) -> Option<Seq<char>> {
    if ended {
        None
    } else {
        Some(end_statement(outcome))
    }
}

/// The statement to run when a transaction is dropped: a rollback, unless it has ended.
pub open spec fn planned_drop(ended: bool) -> Option<Seq<char>> {
    planned_end(ended, Outcome::Rollback)
}

/// Whether a transaction has ended after its end statement ran (`ran`) or failed.
pub open spec fn ended_after(ended: bool, ran: bool) -> bool {
    ended || ran
}

/// The statement that starts a transaction.
pub fn begin_statement() -> (s: &'static str)
    ensures
        s@ == "BEGIN TRANSACTION"@,
{
    "BEGIN TRANSACTION"
}

/// The end-state of a transaction.
#[derive(Debug)]
pub struct TransactionState {
    committed: bool,
}

impl View for TransactionState {
    /// Whether the transaction has ended.
    type V = bool;

    closed spec fn view(&self) -> bool {
        self.committed
    }
}

impl TransactionState {
    /// A transaction that has not ended.
    pub fn new() -> (s: Self)
        ensures
            !s@,
    {
        TransactionState { committed: false }
    }

    /// Whether the transaction has ended.
    pub fn is_committed(&self) -> (ended: bool)
        ensures
            ended == self@,
    {
        self.committed
    }

    /// The statement to run to end the transaction with `outcome`, if any.
    pub fn end_statement(&self, outcome: Outcome) -> (stmt: Option<&'static str>)
        ensures
            match stmt {
                Some(s) => planned_end(self@, outcome) == Some(s@),
                None => planned_end(self@, outcome) is None,
            },
    {
        if self.committed {
            None
        } else {
            match outcome {
                Outcome::Commit => Some("COMMIT"),
                Outcome::Rollback => Some("ROLLBACK"),
            }
        }
    }

    /// The statement to run when the transaction is dropped, if any.
    pub fn drop_statement(&self) -> (stmt: Option<&'static str>)
        ensures
            match stmt {
                Some(s) => planned_drop(self@) == Some(s@),
                None => planned_drop(self@) is None,
            },
    {
        self.end_statement(Outcome::Rollback)
    }

    /// Records whether the end statement ran.
    pub fn record_end(&mut self, ran: bool)
        ensures
            final(self)@ == ended_after(old(self)@, ran),
    {
        if ran {
            self.committed = true;
        }
    }
}

/// A transaction ends at most once: after its end statement has run, neither
/// commit nor rollback nor drop runs another statement; before, either runs
/// its own.
pub proof fn lemma_transaction_ends_once(ended: bool, first: Outcome, later: Outcome)
    ensures
        !ended ==> planned_end(ended, first) == Some(end_statement(first)),
        planned_end(ended_after(ended, true), later) is None,
        planned_drop(ended_after(ended, true)) is None,
        !ended ==> planned_drop(ended) == Some(end_statement(Outcome::Rollback)),
        ended_after(ended, false) == ended,
{
}

} // verus!
