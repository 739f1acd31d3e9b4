//! Policy objects: velocity controls and limits attached to an account,
//! with their enforcement predicate, window computation and threshold check.
//!
//! Controls and limits are configuration-owned and read-only during
//! evaluation; they form a closed capability set of concrete variants.

use vstd::prelude::*;

use crate::context::EntryContext;
use crate::primitives::{
    BalanceSnapshot, DebitOrCredit, EntryValues, MetaValue, VelocityBalanceKey, VelocityError,
};

verus! {

/// Seconds per calendar day; daily windows bucket entries by this.
pub const DAY_SECONDS: u64 = 86400;

/// The calendar day (as a day index since the epoch) of a timestamp.
pub open spec fn spec_day_of(ts: u64) -> u64 {
    ts / DAY_SECONDS
}

/// The calendar day (as a day index since the epoch) of a timestamp.
pub fn day_of(ts: u64) -> (r: u64)
    ensures
        r == spec_day_of(ts),
{
    ts / DAY_SECONDS
}

/// Which entries a limit applies to at all.
#[derive(Clone, Copy, PartialEq, Eq, Structural, Debug)]
pub enum DirectionFilter {
    Both,
    OnlyDirection(DebitOrCredit),
}

/// A control's enforcement predicate over the per-entry context.
#[derive(Clone, Copy, PartialEq, Eq, Structural, Debug)]
pub enum ControlCondition {
    /// Every entry of the account is enforced.
    Always,
    /// The control is disabled; no entry is enforced.
    Never,
    /// Enforce only entries posted in the given direction.
    DirectionIs(DebitOrCredit),
    /// Enforce only transactions of the given kind; evaluating this against
    /// a transaction without a kind is a condition-evaluation fault.
    TxKindIs(u64),
}

/// How a limit assigns an entry to a discrete accumulation window.
#[derive(Clone, Copy, PartialEq, Eq, Structural, Debug)]
pub enum WindowSpec {
    /// One single window over all time.
    AllTime,
    /// One window per calendar day of the entry's effective timestamp.
    Daily,
    /// One window per transaction kind; evaluating this against a
    /// transaction without a kind is a condition-evaluation fault.
    ByTxKind,
}

/// One threshold-plus-window policy under a control.
#[derive(Clone, Copy, PartialEq, Eq, Structural, Debug)]
pub struct AccountVelocityLimit {
    pub limit_id: u64,
    pub window: WindowSpec,
    /// Entries outside this filter fall outside any enforceable window.
    pub applies_to: DirectionFilter,
    /// The direction whose accumulated total the limit bounds.
    pub limited_direction: DebitOrCredit,
    /// Accumulated totals strictly above this threshold are a breach.
    pub threshold: u64,
}

/// A velocity control attached to an account: an enforcement predicate and
/// an ordered set of limits.
#[derive(Clone, PartialEq, Eq, Debug)]
pub struct AccountVelocityControl {
    pub control_id: u64,
    pub condition: ControlCondition,
    pub velocity_limits: Vec<AccountVelocityLimit>,
}

/// One account's resolved values together with its ordered controls; the
/// caller supplies one of these per velocity-controlled account.
#[derive(Clone, PartialEq, Eq, Debug)]
pub struct AccountControls {
    pub account: crate::primitives::AccountValues,
    pub controls: Vec<AccountVelocityControl>,
}

/// Whether the control's condition asks for enforcement of this entry;
/// an absent referenced field is a condition-evaluation fault.
pub open spec fn spec_needs_enforcement(
    condition: ControlCondition,
    ctx: EntryContext,
) -> Result<bool, VelocityError> {
    match condition {
        ControlCondition::Always => Ok(true),
        ControlCondition::Never => Ok(false),
        ControlCondition::DirectionIs(d) => Ok(ctx.direction == d),
        ControlCondition::TxKindIs(k) => match ctx.tx_kind {
            MetaValue::Absent => Err(VelocityError::ConditionEvaluation),
            MetaValue::Present(v) => Ok(v == k),
        },
    }
}

/// The window this entry accumulates under for the limit: `Ok(None)` means
/// the entry is outside any enforceable window and is dropped for this
/// limit; an absent referenced field is a condition-evaluation fault.
pub open spec fn spec_window_for_enforcement(
    limit: AccountVelocityLimit,
    ctx: EntryContext,
    entry: EntryValues,
) -> Result<Option<u64>, VelocityError> {
    if !spec_direction_applies(limit.applies_to, entry.direction) {
        Ok(None)
    } else {
        match limit.window {
            WindowSpec::AllTime => Ok(Some(0u64)),
            WindowSpec::Daily => Ok(Some(spec_day_of(entry.effective_at))),
            WindowSpec::ByTxKind => match ctx.tx_kind {
                MetaValue::Absent => Err(VelocityError::ConditionEvaluation),
                MetaValue::Present(v) => Ok(Some(v)),
            },
        }
    }
}

/// Whether a direction filter admits an entry direction.
pub open spec fn spec_direction_applies(filter: DirectionFilter, d: DebitOrCredit) -> bool {
    match filter {
        DirectionFilter::Both => true,
        DirectionFilter::OnlyDirection(only) => only == d,
    }
}

/// The limit's verdict on one snapshot: a breach exactly when the total in
/// the limited direction strictly exceeds the threshold.
pub open spec fn spec_enforce(
    limit: AccountVelocityLimit,
    key: VelocityBalanceKey,
    snapshot: BalanceSnapshot,
) -> Result<(), VelocityError> {
    if snapshot.spec_total(limit.limited_direction) > limit.threshold {
        Err(VelocityError::LimitExceeded {
            key,
            limit_id: limit.limit_id,
            debit_total: snapshot.debit_total,
            credit_total: snapshot.credit_total,
            threshold: limit.threshold,
        })
    } else {
        Ok(())
    }
}

impl AccountVelocityControl {
    /// Evaluates the control's enforcement predicate for one entry.
    pub fn needs_enforcement(&self, ctx: &EntryContext) -> (r: Result<bool, VelocityError>)
        ensures
            r == spec_needs_enforcement(self.condition, *ctx),
    {
        match self.condition {
            ControlCondition::Always => Ok(true),
            ControlCondition::Never => Ok(false),
            ControlCondition::DirectionIs(d) => Ok(ctx.direction == d),
            ControlCondition::TxKindIs(k) => match ctx.tx_kind {
                MetaValue::Absent => Err(VelocityError::ConditionEvaluation),
                MetaValue::Present(v) => Ok(v == k),
            },
        }
    }
}

impl AccountVelocityLimit {
    /// Computes the accumulation window for one entry, if any.
    pub fn window_for_enforcement(&self, ctx: &EntryContext, entry: &EntryValues) -> (r: Result<
        Option<u64>,
        VelocityError,
    >)
        ensures
            r == spec_window_for_enforcement(*self, *ctx, *entry),
    {
        let applies = match self.applies_to {
            DirectionFilter::Both => true,
            DirectionFilter::OnlyDirection(only) => only == entry.direction,
        };
        if !applies {
            Ok(None)
        } else {
            match self.window {
                WindowSpec::AllTime => Ok(Some(0u64)),
                WindowSpec::Daily => Ok(Some(day_of(entry.effective_at))),
                WindowSpec::ByTxKind => match ctx.tx_kind {
                    MetaValue::Absent => Err(VelocityError::ConditionEvaluation),
                    MetaValue::Present(v) => Ok(Some(v)),
                },
            }
        }
    }

    /// Enforces the limit against one freshly produced snapshot.
    pub fn enforce(
        &self,
        ctx: &EntryContext,
        time: u64,
        key: &VelocityBalanceKey,
        snapshot: &BalanceSnapshot,
    ) -> (r: Result<(), VelocityError>)
        ensures
            r == spec_enforce(*self, *key, *snapshot),
    {
        let _ = ctx;
        let _ = time;
        if snapshot.total(self.limited_direction) > self.threshold {
            Err(VelocityError::LimitExceeded {
                key: *key,
                limit_id: self.limit_id,
                debit_total: snapshot.debit_total,
                credit_total: snapshot.credit_total,
                threshold: self.threshold,
            })
        } else {
            Ok(())
        }
    }
}

} // verus!
