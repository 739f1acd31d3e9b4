//! Plain value types shared by every component: entries, transactions,
//! bucket keys, balance snapshots and the error taxonomy.

use vstd::prelude::*;

verus! {

/// The signed direction of a ledger entry or of an enforced total.
#[derive(Clone, Copy, PartialEq, Eq, Structural, Debug, Hash)]
pub enum DebitOrCredit {
    Debit,
    Credit,
}

/// A transaction attribute that configuration may reference; evaluating a
/// condition against an absent attribute is a condition-evaluation fault.
#[derive(Clone, Copy, PartialEq, Eq, Structural, Debug)]
pub enum MetaValue {
    Absent,
    Present(u64),
}

/// Resolved values of an account that carries velocity controls.
#[derive(Clone, Copy, PartialEq, Eq, Structural, Debug)]
pub struct AccountValues {
    pub account_id: u64,
    pub normal_balance_type: DebitOrCredit,
}

/// Transaction-level fields visible to control and limit predicates.
#[derive(Clone, Copy, PartialEq, Eq, Structural, Debug)]
pub struct TransactionValues {
    pub transaction_id: u64,
    pub journal_id: u64,
    /// Optional transaction kind; conditions referencing it fail when absent.
    pub tx_kind: MetaValue,
}

/// One immutable ledger entry, produced upstream and read-only here.
#[derive(Clone, Copy, PartialEq, Eq, Structural, Debug)]
pub struct EntryValues {
    pub entry_id: u64,
    pub account_id: u64,
    pub currency: u64,
    pub journal_id: u64,
    pub transaction_id: u64,
    pub direction: DebitOrCredit,
    pub units: u64,
    /// Seconds since the epoch; windows derive their calendar day from it.
    pub effective_at: u64,
}

/// The unique accumulation unit: two entries with identical key fields
/// always aggregate into the same rolling balance.
#[derive(Clone, Copy, PartialEq, Eq, Structural, Debug, Hash)]
pub struct VelocityBalanceKey {
    pub window: u64,
    pub currency: u64,
    pub journal_id: u64,
    pub account_id: u64,
    pub control_id: u64,
    pub limit_id: u64,
}

/// One versioned rolling total for a bucket. Snapshots are append-only:
/// every fold step produces a new version and no version is ever mutated.
#[derive(Clone, Copy, PartialEq, Eq, Structural, Debug)]
pub struct BalanceSnapshot {
    pub account_id: u64,
    pub currency: u64,
    /// Timestamp of the ledger operation that produced this version.
    pub recorded_at: u64,
    /// 1 for a bucket's first-ever snapshot, then incremented per fold step.
    pub version: u64,
    pub debit_total: u64,
    pub credit_total: u64,
}

/// The failure taxonomy of a velocity check.
#[derive(Clone, Copy, PartialEq, Eq, Structural, Debug)]
pub enum VelocityError {
    /// A control or limit predicate referenced a missing or invalid field.
    ConditionEvaluation,
    /// A fold step's snapshot breached a configured threshold; carries the
    /// bucket identity and the offending totals as the refusal reason.
    LimitExceeded {
        key: VelocityBalanceKey,
        limit_id: u64,
        debit_total: u64,
        credit_total: u64,
        threshold: u64,
    },
    /// A lock-acquisition or write fault in the backing store.
    Persistence,
}

impl BalanceSnapshot {
    /// The accumulated total in the given direction.
    pub open spec fn spec_total(self, direction: DebitOrCredit) -> u64 {
        match direction {
            DebitOrCredit::Debit => self.debit_total,
            DebitOrCredit::Credit => self.credit_total,
        }
    }

    /// The accumulated total in the given direction.
    pub fn total(&self, direction: DebitOrCredit) -> (r: u64)
        ensures
            r == self.spec_total(direction),
    {
        match direction {
            DebitOrCredit::Debit => self.debit_total,
            DebitOrCredit::Credit => self.credit_total,
        }
    }
}

} // verus!
