use velocity::account_control::{
    AccountControls, AccountVelocityControl, AccountVelocityLimit, ControlCondition,
    DirectionFilter, WindowSpec,
};
use velocity::account_control::day_of;
use velocity::primitives::{
    AccountValues, DebitOrCredit, EntryValues, MetaValue, TransactionValues, VelocityBalanceKey,
    VelocityError,
};
use velocity::context::EvalContext;
use velocity::selector::balances_to_check;
use velocity::velocity::{locking_order, VelocityBalances};

const DAY: u64 = 86400;

fn tx(kind: MetaValue) -> TransactionValues {
    TransactionValues { transaction_id: 900, journal_id: 10, tx_kind: kind }
}

fn entry(account_id: u64, direction: DebitOrCredit, units: u64, effective_at: u64) -> EntryValues {
    EntryValues {
        entry_id: 1,
        account_id,
        currency: 840,
        journal_id: 10,
        transaction_id: 900,
        direction,
        units,
        effective_at,
    }
}

fn daily_debit_limit(limit_id: u64, threshold: u64) -> AccountVelocityLimit {
    AccountVelocityLimit {
        limit_id,
        window: WindowSpec::Daily,
        applies_to: DirectionFilter::Both,
        limited_direction: DebitOrCredit::Debit,
        threshold,
    }
}

fn controls_for(
    account_id: u64,
    condition: ControlCondition,
    limits: Vec<AccountVelocityLimit>,
) -> Vec<AccountControls> {
    vec![AccountControls {
        account: AccountValues { account_id, normal_balance_type: DebitOrCredit::Debit },
        controls: vec![AccountVelocityControl { control_id: 7, condition, velocity_limits: limits }],
    }]
}

fn daily_key(account_id: u64, day: u64, limit_id: u64) -> VelocityBalanceKey {
    VelocityBalanceKey {
        window: day,
        currency: 840,
        journal_id: 10,
        account_id,
        control_id: 7,
        limit_id,
    }
}

#[test]
fn uncontrolled_batch_is_noop() {
    let mut balances = VelocityBalances::new();
    let entries = vec![
        entry(1, DebitOrCredit::Debit, 500, 0),
        entry(2, DebitOrCredit::Credit, 900, 0),
    ];
    // Account 3 is controlled, but no entry touches it.
    let cfg = controls_for(3, ControlCondition::Always, vec![daily_debit_limit(40, 100)]);
    let r = balances.update_balances_in_op(5, &tx(MetaValue::Absent), &entries, &cfg);
    assert!(r.is_ok());
    assert_eq!(balances.find_current(&daily_key(1, 0, 40)), None);
    assert_eq!(balances.find_current(&daily_key(3, 0, 40)), None);
    assert!(balances.find_all_versions(&daily_key(3, 0, 40)).is_empty());
}

#[test]
fn daily_debit_limit_breach_rolls_back() {
    // Account 1 has a daily debit limit of 1000 units; 700 already debited
    // today; a batch of 200 then 200 must fail at the second step and leave
    // the stored balance at 700.
    let mut balances = VelocityBalances::new();
    let cfg = controls_for(1, ControlCondition::Always, vec![daily_debit_limit(40, 1000)]);
    let t = tx(MetaValue::Absent);

    let seed = vec![entry(1, DebitOrCredit::Debit, 700, 100)];
    assert!(balances.update_balances_in_op(1, &t, &seed, &cfg).is_ok());
    let key = daily_key(1, 0, 40);
    let before = balances.find_current(&key).expect("seeded");
    assert_eq!(before.debit_total, 700);
    assert_eq!(before.version, 1);

    let batch = vec![
        entry(1, DebitOrCredit::Debit, 200, 200),
        entry(1, DebitOrCredit::Debit, 200, 300),
    ];
    let r = balances.update_balances_in_op(2, &t, &batch, &cfg);
    match r {
        Err(VelocityError::LimitExceeded { key: k, limit_id, debit_total, credit_total, threshold }) => {
            assert_eq!(k, key);
            assert_eq!(limit_id, 40);
            assert_eq!(debit_total, 1100);
            assert_eq!(credit_total, 0);
            assert_eq!(threshold, 1000);
        }
        other => panic!("expected a limit breach, got {:?}", other),
    }
    // Rolled back: the balance still shows 700, not 900 or 1100.
    let after = balances.find_current(&key).expect("still seeded");
    assert_eq!(after.debit_total, 700);
    assert_eq!(after.version, 1);
    assert_eq!(balances.find_all_versions(&key).len(), 1);
}

#[test]
fn passing_batch_persists_every_intermediate_version() {
    let mut balances = VelocityBalances::new();
    let cfg = controls_for(1, ControlCondition::Always, vec![daily_debit_limit(40, 1000)]);
    let t = tx(MetaValue::Absent);
    let batch = vec![
        entry(1, DebitOrCredit::Debit, 300, 100),
        entry(1, DebitOrCredit::Debit, 400, 200),
    ];
    assert!(balances.update_balances_in_op(9, &t, &batch, &cfg).is_ok());
    let key = daily_key(1, 0, 40);
    let versions = balances.find_all_versions(&key);
    assert_eq!(versions.len(), 2);
    assert_eq!(versions[0].debit_total, 300);
    assert_eq!(versions[0].version, 1);
    assert_eq!(versions[1].debit_total, 700);
    assert_eq!(versions[1].version, 2);
    assert_eq!(versions[0].recorded_at, 9);
    let current = balances.find_current(&key).expect("seeded");
    assert_eq!(current, versions[1]);
}

#[test]
fn exact_threshold_passes() {
    let mut balances = VelocityBalances::new();
    let cfg = controls_for(1, ControlCondition::Always, vec![daily_debit_limit(40, 1000)]);
    let batch = vec![entry(1, DebitOrCredit::Debit, 1000, 0)];
    assert!(balances.update_balances_in_op(1, &tx(MetaValue::Absent), &batch, &cfg).is_ok());
    assert_eq!(balances.find_current(&daily_key(1, 0, 40)).unwrap().debit_total, 1000);
}

#[test]
fn two_days_accumulate_in_independent_buckets() {
    // Entries on two calendar days stay under a limit that their sum would
    // breach: each day's bucket is enforced on its own totals.
    let mut balances = VelocityBalances::new();
    let cfg = controls_for(1, ControlCondition::Always, vec![daily_debit_limit(40, 1000)]);
    let t = tx(MetaValue::Absent);
    let batch = vec![
        entry(1, DebitOrCredit::Debit, 800, 10),
        entry(1, DebitOrCredit::Debit, 800, DAY + 10),
    ];
    assert!(balances.update_balances_in_op(3, &t, &batch, &cfg).is_ok());
    let day0 = balances.find_current(&daily_key(1, 0, 40)).expect("day 0 seeded");
    let day1 = balances.find_current(&daily_key(1, 1, 40)).expect("day 1 seeded");
    assert_eq!(day0.debit_total, 800);
    assert_eq!(day1.debit_total, 800);
    assert_eq!(day0.version, 1);
    assert_eq!(day1.version, 1);
}

#[test]
fn same_inputs_same_totals_on_any_store() {
    // Deterministic fold: two stores answering the same current snapshots
    // yield the same sequence of totals for the same ordered batch.
    let cfg = controls_for(1, ControlCondition::Always, vec![daily_debit_limit(40, 5000)]);
    let t = tx(MetaValue::Absent);
    let batch = vec![
        entry(1, DebitOrCredit::Debit, 100, 0),
        entry(1, DebitOrCredit::Credit, 50, 0),
        entry(1, DebitOrCredit::Debit, 25, 0),
    ];
    let mut first = VelocityBalances::new();
    let mut second = VelocityBalances::new();
    // The second store differs on an unrelated bucket.
    let unrelated = vec![entry(2, DebitOrCredit::Debit, 1, 0)];
    let cfg2 = controls_for(2, ControlCondition::Always, vec![daily_debit_limit(41, 10)]);
    assert!(second.update_balances_in_op(1, &t, &unrelated, &cfg2).is_ok());

    assert!(first.update_balances_in_op(2, &t, &batch, &cfg).is_ok());
    assert!(second.update_balances_in_op(2, &t, &batch, &cfg).is_ok());
    let key = daily_key(1, 0, 40);
    assert_eq!(first.find_all_versions(&key), second.find_all_versions(&key));
    let current = first.find_current(&key).unwrap();
    assert_eq!(current.debit_total, 125);
    assert_eq!(current.credit_total, 50);
    assert_eq!(current.version, 3);
}

#[test]
fn second_operation_starts_from_committed_totals() {
    // Serialization: an operation that runs after another committed reads
    // exactly the first operation's final totals as its baseline.
    let mut balances = VelocityBalances::new();
    let cfg = controls_for(1, ControlCondition::Always, vec![daily_debit_limit(40, 10000)]);
    let t = tx(MetaValue::Absent);
    assert!(balances
        .update_balances_in_op(1, &t, &vec![entry(1, DebitOrCredit::Debit, 100, 0)], &cfg)
        .is_ok());
    assert!(balances
        .update_balances_in_op(2, &t, &vec![entry(1, DebitOrCredit::Debit, 10, 0)], &cfg)
        .is_ok());
    let key = daily_key(1, 0, 40);
    let versions = balances.find_all_versions(&key);
    assert_eq!(versions.len(), 2);
    assert_eq!(versions[1].debit_total, 110);
    assert_eq!(versions[1].version, 2);
}

#[test]
fn missing_tx_kind_is_condition_evaluation_fault() {
    let mut balances = VelocityBalances::new();
    let cfg = controls_for(1, ControlCondition::TxKindIs(3), vec![daily_debit_limit(40, 1000)]);
    let batch = vec![entry(1, DebitOrCredit::Debit, 1, 0)];
    let r = balances.update_balances_in_op(1, &tx(MetaValue::Absent), &batch, &cfg);
    assert_eq!(r, Err(VelocityError::ConditionEvaluation));
    assert!(balances.find_all_versions(&daily_key(1, 0, 40)).is_empty());
}

#[test]
fn tx_kind_window_without_kind_is_condition_evaluation_fault() {
    let mut balances = VelocityBalances::new();
    let limit = AccountVelocityLimit {
        limit_id: 40,
        window: WindowSpec::ByTxKind,
        applies_to: DirectionFilter::Both,
        limited_direction: DebitOrCredit::Debit,
        threshold: 1000,
    };
    let cfg = controls_for(1, ControlCondition::Always, vec![limit]);
    let batch = vec![entry(1, DebitOrCredit::Debit, 1, 0)];
    let r = balances.update_balances_in_op(1, &tx(MetaValue::Absent), &batch, &cfg);
    assert_eq!(r, Err(VelocityError::ConditionEvaluation));
}

#[test]
fn matching_tx_kind_enforces() {
    let mut balances = VelocityBalances::new();
    let cfg = controls_for(1, ControlCondition::TxKindIs(3), vec![daily_debit_limit(40, 100)]);
    let batch = vec![entry(1, DebitOrCredit::Debit, 200, 0)];
    let r = balances.update_balances_in_op(1, &tx(MetaValue::Present(3)), &batch, &cfg);
    assert!(matches!(r, Err(VelocityError::LimitExceeded { .. })));
    let other_kind = balances.update_balances_in_op(1, &tx(MetaValue::Present(4)), &batch, &cfg);
    assert!(other_kind.is_ok());
    assert!(balances.find_all_versions(&daily_key(1, 0, 40)).is_empty());
}

#[test]
fn disabled_control_is_noop() {
    let mut balances = VelocityBalances::new();
    let cfg = controls_for(1, ControlCondition::Never, vec![daily_debit_limit(40, 1)]);
    let batch = vec![entry(1, DebitOrCredit::Debit, 100, 0)];
    assert!(balances.update_balances_in_op(1, &tx(MetaValue::Absent), &batch, &cfg).is_ok());
    assert!(balances.find_all_versions(&daily_key(1, 0, 40)).is_empty());
}

#[test]
fn direction_filter_drops_entries_outside_it() {
    let mut balances = VelocityBalances::new();
    let limit = AccountVelocityLimit {
        limit_id: 40,
        window: WindowSpec::Daily,
        applies_to: DirectionFilter::OnlyDirection(DebitOrCredit::Credit),
        limited_direction: DebitOrCredit::Credit,
        threshold: 10,
    };
    let cfg = controls_for(1, ControlCondition::Always, vec![limit]);
    // A debit entry falls outside the credit-only window: no bucket, no row.
    let batch = vec![entry(1, DebitOrCredit::Debit, 100, 0)];
    assert!(balances.update_balances_in_op(1, &tx(MetaValue::Absent), &batch, &cfg).is_ok());
    assert!(balances.find_all_versions(&daily_key(1, 0, 40)).is_empty());
}

#[test]
fn credit_limit_enforces_credit_totals() {
    let mut balances = VelocityBalances::new();
    let limit = AccountVelocityLimit {
        limit_id: 41,
        window: WindowSpec::AllTime,
        applies_to: DirectionFilter::Both,
        limited_direction: DebitOrCredit::Credit,
        threshold: 50,
    };
    let cfg = controls_for(1, ControlCondition::Always, vec![limit]);
    // Debits alone never breach a credit limit.
    let debits = vec![entry(1, DebitOrCredit::Debit, 1000, 0)];
    assert!(balances.update_balances_in_op(1, &tx(MetaValue::Absent), &debits, &cfg).is_ok());
    let credits = vec![entry(1, DebitOrCredit::Credit, 60, 0)];
    let r = balances.update_balances_in_op(2, &tx(MetaValue::Absent), &credits, &cfg);
    match r {
        Err(VelocityError::LimitExceeded { credit_total, debit_total, threshold, .. }) => {
            assert_eq!(credit_total, 60);
            assert_eq!(debit_total, 1000);
            assert_eq!(threshold, 50);
        }
        other => panic!("expected a limit breach, got {:?}", other),
    }
}

#[test]
fn direction_condition_selects_entries() {
    let mut balances = VelocityBalances::new();
    let cfg = controls_for(
        1,
        ControlCondition::DirectionIs(DebitOrCredit::Debit),
        vec![daily_debit_limit(40, 100)],
    );
    let credits = vec![entry(1, DebitOrCredit::Credit, 500, 0)];
    assert!(balances.update_balances_in_op(1, &tx(MetaValue::Absent), &credits, &cfg).is_ok());
    assert!(balances.find_all_versions(&daily_key(1, 0, 40)).is_empty());
    let debits = vec![entry(1, DebitOrCredit::Debit, 500, 0)];
    let r = balances.update_balances_in_op(2, &tx(MetaValue::Absent), &debits, &cfg);
    assert!(matches!(r, Err(VelocityError::LimitExceeded { .. })));
}

#[test]
fn empty_batch_is_noop() {
    let mut balances = VelocityBalances::new();
    let cfg = controls_for(1, ControlCondition::Always, vec![daily_debit_limit(40, 1000)]);
    let r = balances.update_balances_in_op(1, &tx(MetaValue::Absent), &Vec::new(), &cfg);
    assert!(r.is_ok());
    assert_eq!(balances.find_current(&daily_key(1, 0, 40)), None);
}

#[test]
fn two_limits_under_one_control_bucket_separately() {
    // The same entry accumulates under each limit's own bucket; the tighter
    // limit breaches and is named in the error, and nothing commits.
    let mut balances = VelocityBalances::new();
    let cfg = controls_for(
        1,
        ControlCondition::Always,
        vec![daily_debit_limit(40, 1000), daily_debit_limit(41, 500)],
    );
    let batch = vec![entry(1, DebitOrCredit::Debit, 600, 0)];
    let r = balances.update_balances_in_op(1, &tx(MetaValue::Absent), &batch, &cfg);
    match r {
        Err(VelocityError::LimitExceeded { key, limit_id, debit_total, threshold, .. }) => {
            assert_eq!(limit_id, 41);
            assert_eq!(key, daily_key(1, 0, 41));
            assert_eq!(debit_total, 600);
            assert_eq!(threshold, 500);
        }
        other => panic!("expected a limit breach, got {:?}", other),
    }
    assert_eq!(balances.find_current(&daily_key(1, 0, 40)), None);
    assert_eq!(balances.find_current(&daily_key(1, 0, 41)), None);
}

#[test]
fn mixed_batch_only_controlled_account_is_tracked() {
    let mut balances = VelocityBalances::new();
    let cfg = controls_for(1, ControlCondition::Always, vec![daily_debit_limit(40, 1000)]);
    let batch = vec![
        entry(2, DebitOrCredit::Debit, 900, 0),
        entry(1, DebitOrCredit::Debit, 300, 0),
        entry(3, DebitOrCredit::Credit, 50, 0),
    ];
    assert!(balances.update_balances_in_op(1, &tx(MetaValue::Absent), &batch, &cfg).is_ok());
    let current = balances.find_current(&daily_key(1, 0, 40)).expect("tracked");
    assert_eq!(current.debit_total, 300);
    assert_eq!(balances.find_current(&daily_key(2, 0, 40)), None);
}

#[test]
fn locks_are_requested_in_sorted_key_order() {
    // The batch discovers day 2 before day 1, but the locking order sorts.
    let cfg = controls_for(1, ControlCondition::Always, vec![daily_debit_limit(40, 1000)]);
    let entries = vec![
        entry(1, DebitOrCredit::Debit, 5, 2 * DAY),
        entry(1, DebitOrCredit::Debit, 5, DAY),
    ];
    let t = tx(MetaValue::Absent);
    let context = EvalContext::new(&t);
    let grouped = balances_to_check(&context, &entries, &cfg).expect("selection succeeds");
    let keys = locking_order(&grouped);
    assert_eq!(keys.len(), 2);
    assert_eq!(keys[0], daily_key(1, 1, 40));
    assert_eq!(keys[1], daily_key(1, 2, 40));
}

#[test]
fn day_of_buckets_by_calendar_day() {
    assert_eq!(day_of(0), 0);
    assert_eq!(day_of(DAY - 1), 0);
    assert_eq!(day_of(DAY), 1);
    assert_eq!(day_of(3 * DAY + 5), 3);
}

#[test]
fn breach_on_first_entry_seeds_nothing() {
    let mut balances = VelocityBalances::new();
    let cfg = controls_for(1, ControlCondition::Always, vec![daily_debit_limit(40, 10)]);
    let batch = vec![entry(1, DebitOrCredit::Debit, 11, 0)];
    let r = balances.update_balances_in_op(1, &tx(MetaValue::Absent), &batch, &cfg);
    match r {
        Err(VelocityError::LimitExceeded { debit_total, .. }) => assert_eq!(debit_total, 11),
        other => panic!("expected a limit breach, got {:?}", other),
    }
    assert_eq!(balances.find_current(&daily_key(1, 0, 40)), None);
}
