//! Evaluation context: shared per-transaction state built once, and the
//! inexpensive per-entry view that control and limit predicates read.

use vstd::prelude::*;

use crate::primitives::{EntryValues, MetaValue, TransactionValues};

verus! {

/// Shared state of one ledger operation, built once per transaction.
#[derive(Clone, Copy, PartialEq, Eq, Structural, Debug)]
pub struct EvalContext {
    pub transaction_id: u64,
    pub journal_id: u64,
    pub tx_kind: MetaValue,
}

/// The per-entry view handed to `needs_enforcement` and
/// `window_for_enforcement`: transaction-level fields joined with the
/// fields of one entry.
#[derive(Clone, Copy, PartialEq, Eq, Structural, Debug)]
pub struct EntryContext {
    pub transaction_id: u64,
    pub journal_id: u64,
    pub tx_kind: MetaValue,
    pub account_id: u64,
    pub currency: u64,
    pub direction: crate::primitives::DebitOrCredit,
    pub units: u64,
    pub effective_at: u64,
}

/// The per-entry view derived from a shared context and one entry.
pub open spec fn spec_context_for_entry(ctx: EvalContext, entry: EntryValues) -> EntryContext {
    EntryContext {
        transaction_id: ctx.transaction_id,
        journal_id: ctx.journal_id,
        tx_kind: ctx.tx_kind,
        account_id: entry.account_id,
        currency: entry.currency,
        direction: entry.direction,
        units: entry.units,
        effective_at: entry.effective_at,
    }
}

impl EvalContext {
    /// Builds the shared per-transaction state once; per-entry views are
    /// then derived without recomputing it.
    pub fn new(transaction: &TransactionValues) -> (r: EvalContext)
        ensures
            r == (EvalContext {
                transaction_id: transaction.transaction_id,
                journal_id: transaction.journal_id,
                tx_kind: transaction.tx_kind,
            }),
    {
        EvalContext {
            transaction_id: transaction.transaction_id,
            journal_id: transaction.journal_id,
            tx_kind: transaction.tx_kind,
        }
    }

    /// Derives the cheap per-entry view for one entry.
    pub fn context_for_entry(&self, entry: &EntryValues) -> (r: EntryContext)
        ensures
            r == spec_context_for_entry(*self, *entry),
    {
        EntryContext {
            transaction_id: self.transaction_id,
            journal_id: self.journal_id,
            tx_kind: self.tx_kind,
            account_id: entry.account_id,
            currency: entry.currency,
            direction: entry.direction,
            units: entry.units,
            effective_at: entry.effective_at,
        }
    }
}

} // verus!
