//! Snapshot builder: folds each bucket's ordered (limit, entry) pairs into
//! successive balance snapshot versions, enforcing the limit after every
//! fold step. The whole call fails at the first breach or evaluation fault.

use vstd::prelude::*;

use crate::account_control::spec_enforce;
use crate::context::EvalContext;
use crate::primitives::{
    BalanceSnapshot, DebitOrCredit, EntryValues, VelocityBalanceKey, VelocityError,
};
use crate::selector::{BucketEntry, BucketMap, BucketsView};

verus! {

/// The locked current snapshot fetched for one bucket key; `None` means the
/// bucket was never seeded.
#[derive(Clone, Copy, PartialEq, Eq, Debug)]
pub struct CurrentBalance {
    pub key: VelocityBalanceKey,
    pub current: Option<BalanceSnapshot>,
}

/// Every snapshot version one bucket produced in one call, in fold order.
#[derive(Clone, PartialEq, Eq, Debug)]
pub struct BucketSnapshots {
    pub key: VelocityBalanceKey,
    pub versions: Vec<BalanceSnapshot>,
}

/// The mathematical shape of the produced versions, per bucket.
pub type NewBalancesView = Seq<(VelocityBalanceKey, Seq<BalanceSnapshot>)>;

/// The view of a produced-versions vector.
pub open spec fn nb_view(v: Seq<BucketSnapshots>) -> NewBalancesView {
    Seq::new(v.len(), |i: int| (v[i].key, v[i].versions@))
}

/// A bucket's first-ever snapshot, seeded purely from the triggering entry:
/// no predecessor totals exist.
pub open spec fn spec_new_snapshot(time: u64, account_id: u64, entry: EntryValues)
    -> BalanceSnapshot {
    BalanceSnapshot {
        account_id,
        currency: entry.currency,
        recorded_at: time,
        version: 1u64,
        debit_total: if entry.direction is Debit { entry.units } else { 0u64 },
        credit_total: if entry.direction is Credit { entry.units } else { 0u64 },
    }
}

/// The next snapshot version: the entry's contribution folded into the
/// baseline's totals.
pub open spec fn spec_update_snapshot(time: u64, prior: BalanceSnapshot, entry: EntryValues)
    -> BalanceSnapshot {
    BalanceSnapshot {
        account_id: prior.account_id,
        currency: prior.currency,
        recorded_at: time,
        version: (prior.version + 1) as u64,
        debit_total: if entry.direction is Debit {
            (prior.debit_total + entry.units) as u64
        } else {
            prior.debit_total
        },
        credit_total: if entry.direction is Credit {
            (prior.credit_total + entry.units) as u64
        } else {
            prior.credit_total
        },
    }
}

/// One fold step: seed a first snapshot when no baseline exists, update the
/// baseline otherwise. These are two distinct construction rules.
pub open spec fn spec_apply(time: u64, baseline: Option<BalanceSnapshot>, entry: EntryValues)
    -> BalanceSnapshot {
    match baseline {
        None => spec_new_snapshot(time, entry.account_id, entry),
        Some(prior) => spec_update_snapshot(time, prior, entry),
    }
}

/// One pair's contribution to the accumulated total of one direction.
pub open spec fn pair_units(p: BucketEntry, direction: DebitOrCredit) -> int {
    if p.entry.direction == direction {
        p.entry.units as int
    } else {
        0
    }
}

/// The summed contributions of a pair sequence in one direction.
pub open spec fn sum_units(ps: Seq<BucketEntry>, direction: DebitOrCredit) -> int
    decreases ps.len(),
{
    if ps.len() == 0 {
        0
    } else {
        sum_units(ps.drop_last(), direction) + pair_units(ps.last(), direction)
    }
}

/// The baseline's accumulated total in one direction; a never-seeded bucket
/// starts from zero.
pub open spec fn base_total(baseline: Option<BalanceSnapshot>, direction: DebitOrCredit) -> int {
    match baseline {
        None => 0,
        Some(b) => b.spec_total(direction) as int,
    }
}

/// The baseline's version number; a never-seeded bucket starts from zero.
pub open spec fn base_version(baseline: Option<BalanceSnapshot>) -> int {
    match baseline {
        None => 0,
        Some(b) => b.version as int,
    }
}

/// The machine-width bound forced by `u64` totals and versions: every
/// intermediate total and version of the fold stays representable.
pub open spec fn bucket_fits(baseline: Option<BalanceSnapshot>, ps: Seq<BucketEntry>) -> bool {
    &&& base_total(baseline, DebitOrCredit::Debit) + sum_units(ps, DebitOrCredit::Debit)
        <= u64::MAX
    &&& base_total(baseline, DebitOrCredit::Credit) + sum_units(ps, DebitOrCredit::Credit)
        <= u64::MAX
    &&& base_version(baseline) + ps.len() <= u64::MAX
}

pub proof fn lemma_sum_units_take_succ(ps: Seq<BucketEntry>, j: int, direction: DebitOrCredit)
    requires
        0 <= j < ps.len(),
    ensures
        sum_units(ps.take(j + 1), direction) == sum_units(ps.take(j), direction)
            + pair_units(ps[j], direction),
{
    assert(ps.take(j + 1).drop_last() =~= ps.take(j));
    assert(ps.take(j + 1).last() == ps[j]);
}

pub proof fn lemma_sum_units_take_le(ps: Seq<BucketEntry>, j: int, direction: DebitOrCredit)
    requires
        0 <= j <= ps.len(),
    ensures
        sum_units(ps.take(j), direction) <= sum_units(ps, direction),
    decreases ps.len() - j,
{
    if j == ps.len() {
        assert(ps.take(j) =~= ps);
    } else {
        lemma_sum_units_take_succ(ps, j, direction);
        lemma_sum_units_take_le(ps, j + 1, direction);
    }
}

/// The fold of one bucket: left to right over the ordered pairs, every step
/// produces a new snapshot version and enforces its limit at once
/// (fail-fast), and the step's snapshot becomes the next baseline. The
/// result lists every produced version in order.
pub open spec fn spec_fold_bucket(
    time: u64,
    key: VelocityBalanceKey,
    baseline: Option<BalanceSnapshot>,
    ps: Seq<BucketEntry>,
) -> Result<Seq<BalanceSnapshot>, VelocityError>
    decreases ps.len(),
{
    if ps.len() == 0 {
        Ok(Seq::empty())
    } else {
        let p = ps[0];
        let snap = spec_apply(time, baseline, p.entry);
        match spec_enforce(p.limit, key, snap) {
            Err(e) => Err(e),
            Ok(()) => match spec_fold_bucket(time, key, Some(snap), ps.drop_first()) {
                Err(e) => Err(e),
                Ok(rest) => Ok(seq![snap] + rest),
            },
        }
    }
}

/// Prefixes already-produced versions onto the rest of a fold's outcome.
pub open spec fn fold_combine(
    pre: Seq<BalanceSnapshot>,
    r: Result<Seq<BalanceSnapshot>, VelocityError>,
) -> Result<Seq<BalanceSnapshot>, VelocityError> {
    match r {
        Ok(rest) => Ok(pre + rest),
        Err(e) => Err(e),
    }
}

/// The current snapshot fetched for a key, first match.
pub open spec fn cb_value(cb: Seq<CurrentBalance>, key: VelocityBalanceKey) -> Option<
    BalanceSnapshot,
>
    decreases cb.len(),
{
    if cb.len() == 0 {
        None
    } else if cb[0].key == key {
        cb[0].current
    } else {
        cb_value(cb.drop_first(), key)
    }
}

/// Whether a fetched-balances list answers for this key at all.
pub open spec fn cb_has(cb: Seq<CurrentBalance>, key: VelocityBalanceKey) -> bool {
    exists|i: int| 0 <= i < cb.len() && cb[i].key == key
}

/// The per-bucket fold of the whole grouped selection, in bucket order,
/// stopping at the first breach or fault.
pub open spec fn spec_new_snapshots(
    time: u64,
    cb: Seq<CurrentBalance>,
    buckets: BucketsView,
) -> Result<NewBalancesView, VelocityError>
    decreases buckets.len(),
{
    if buckets.len() == 0 {
        Ok(Seq::empty())
    } else {
        let key = buckets[0].0;
        match spec_fold_bucket(time, key, cb_value(cb, key), buckets[0].1) {
            Err(e) => Err(e),
            Ok(vs) => match spec_new_snapshots(time, cb, buckets.drop_first()) {
                Err(e) => Err(e),
                Ok(rest) => Ok(seq![(key, vs)] + rest),
            },
        }
    }
}

/// Prefixes already-folded buckets onto the rest of the outcome.
pub open spec fn nb_combine(pre: NewBalancesView, r: Result<NewBalancesView, VelocityError>)
    -> Result<NewBalancesView, VelocityError> {
    match r {
        Ok(rest) => Ok(pre + rest),
        Err(e) => Err(e),
    }
}

/// The pure snapshot-construction collaborator.
pub struct Snapshots;

impl Snapshots {
    /// Seeds a bucket's first-ever snapshot from the triggering entry.
    pub fn new_snapshot(time: u64, account_id: u64, entry: &EntryValues) -> (r: BalanceSnapshot)
        ensures
            r == spec_new_snapshot(time, account_id, *entry),
    {
        BalanceSnapshot {
            account_id,
            currency: entry.currency,
            recorded_at: time,
            version: 1,
            debit_total: match entry.direction {
                DebitOrCredit::Debit => entry.units,
                DebitOrCredit::Credit => 0,
            },
            credit_total: match entry.direction {
                DebitOrCredit::Credit => entry.units,
                DebitOrCredit::Debit => 0,
            },
        }
    }

    /// Folds one entry's contribution into a baseline snapshot.
    pub fn update_snapshot(time: u64, prior: BalanceSnapshot, entry: &EntryValues) -> (r:
        BalanceSnapshot)
        requires
            prior.version < u64::MAX,
            entry.direction is Debit ==> prior.debit_total + entry.units <= u64::MAX,
            entry.direction is Credit ==> prior.credit_total + entry.units <= u64::MAX,
        ensures
            r == spec_update_snapshot(time, prior, *entry),
    {
        BalanceSnapshot {
            account_id: prior.account_id,
            currency: prior.currency,
            recorded_at: time,
            version: prior.version + 1,
            debit_total: match entry.direction {
                DebitOrCredit::Debit => prior.debit_total + entry.units,
                DebitOrCredit::Credit => prior.debit_total,
            },
            credit_total: match entry.direction {
                DebitOrCredit::Credit => prior.credit_total + entry.units,
                DebitOrCredit::Debit => prior.credit_total,
            },
        }
    }
}

/// Folds one bucket's ordered pairs into successive snapshot versions,
/// enforcing after every step; returns every produced version in order.
pub fn fold_bucket(
    context: &EvalContext,
    time: u64,
    key: &VelocityBalanceKey,
    baseline: Option<BalanceSnapshot>,
    ps: &Vec<BucketEntry>,
) -> (r: Result<Vec<BalanceSnapshot>, VelocityError>)
    requires
        bucket_fits(baseline, ps@),
    ensures
        match r {
            Ok(v) => spec_fold_bucket(time, *key, baseline, ps@) == Ok::<
                Seq<BalanceSnapshot>,
                VelocityError,
            >(v@),
            Err(e) => spec_fold_bucket(time, *key, baseline, ps@) == Err::<
                Seq<BalanceSnapshot>,
                VelocityError,
            >(e),
        },
{
    let n = ps.len();
    let mut out: Vec<BalanceSnapshot> = Vec::new();
    let mut latest: Option<BalanceSnapshot> = baseline;
    let mut j: usize = 0;
    proof {
        assert(ps@.skip(0) =~= ps@);
        assert(ps@.take(0) =~= Seq::<BucketEntry>::empty());
        assert(out@ + Seq::<BalanceSnapshot>::empty() =~= out@);
    }
    while j < n
        invariant
            n == ps@.len(),
            0 <= j <= n,
            bucket_fits(baseline, ps@),
            base_total(latest, DebitOrCredit::Debit) == base_total(baseline, DebitOrCredit::Debit)
                + sum_units(ps@.take(j as int), DebitOrCredit::Debit),
            base_total(latest, DebitOrCredit::Credit) == base_total(
                baseline,
                DebitOrCredit::Credit,
            ) + sum_units(ps@.take(j as int), DebitOrCredit::Credit),
            base_version(latest) == base_version(baseline) + j,
            j > 0 ==> latest is Some,
            j == 0 ==> latest == baseline,
            spec_fold_bucket(time, *key, baseline, ps@) == fold_combine(
                out@,
                spec_fold_bucket(time, *key, latest, ps@.skip(j as int)),
            ),
        decreases n - j,
    {
        let p = ps[j];
        proof {
            assert(ps@.skip(j as int)[0] == ps@[j as int]);
            assert(ps@.skip(j as int).drop_first() =~= ps@.skip(j as int + 1));
            lemma_sum_units_take_succ(ps@, j as int, DebitOrCredit::Debit);
            lemma_sum_units_take_succ(ps@, j as int, DebitOrCredit::Credit);
            lemma_sum_units_take_le(ps@, j as int + 1, DebitOrCredit::Debit);
            lemma_sum_units_take_le(ps@, j as int + 1, DebitOrCredit::Credit);
        }
        let ectx = context.context_for_entry(&p.entry);
        let snap = match latest {
            None => Snapshots::new_snapshot(time, p.entry.account_id, &p.entry),
            Some(prior) => Snapshots::update_snapshot(time, prior, &p.entry),
        };
        proof {
            assert(snap == spec_apply(time, latest, p.entry));
        }
        match p.limit.enforce(&ectx, time, key, &snap) {
            Err(e) => {
                return Err(e);
            },
            Ok(()) => {},
        }
        let ghost out_old = out@;
        out.push(snap);
        proof {
            assert(spec_enforce(p.limit, *key, snap) == Ok::<(), VelocityError>(()));
            let tail = spec_fold_bucket(time, *key, Some(snap), ps@.skip(j as int + 1));
            assert(spec_fold_bucket(time, *key, latest, ps@.skip(j as int)) == (match tail {
                Err(e) => Err::<Seq<BalanceSnapshot>, VelocityError>(e),
                Ok(rest) => Ok(seq![snap] + rest),
            }));
            match tail {
                Err(_) => {},
                Ok(rest) => {
                    assert(out_old + (seq![snap] + rest) =~= out@ + rest);
                },
            }
        }
        latest = Some(snap);
        j = j + 1;
    }
    proof {
        assert(ps@.skip(n as int).len() == 0);
        assert(ps@.take(n as int) =~= ps@);
        assert(out@ + Seq::<BalanceSnapshot>::empty() =~= out@);
    }
    Ok(out)
}

/// Looks up the fetched current snapshot for one bucket key.
fn find_current_balance(cb: &Vec<CurrentBalance>, key: &VelocityBalanceKey) -> (r: Option<
    Option<BalanceSnapshot>,
>)
    ensures
        match r {
            Some(c) => cb_has(cb@, *key) && c == cb_value(cb@, *key),
            None => !cb_has(cb@, *key),
        },
{
    let n = cb.len();
    let mut i: usize = 0;
    proof {
        assert(cb@.skip(0) =~= cb@);
    }
    while i < n
        invariant
            n == cb@.len(),
            0 <= i <= n,
            cb_value(cb@, *key) == cb_value(cb@.skip(i as int), *key),
            forall|j: int| 0 <= j < i ==> cb@[j].key != *key,
        decreases n - i,
    {
        proof {
            assert(cb@.skip(i as int)[0] == cb@[i as int]);
            assert(cb@.skip(i as int).drop_first() =~= cb@.skip(i as int + 1));
        }
        if cb[i].key == *key {
            return Some(cb[i].current);
        }
        i = i + 1;
    }
    None
}

/// Folds every bucket of the grouped selection into its ordered snapshot
/// versions, in bucket order, stopping at the first breach or fault. Every
/// bucket key must have been fetched (its locked current snapshot or the
/// explicit absence of one); a key that was not is a persistence fault.
pub fn new_snapshots(
    context: EvalContext,
    time: u64,
    current_balances: &Vec<CurrentBalance>,
    entries_to_add: &BucketMap,
) -> (r: Result<Vec<BucketSnapshots>, VelocityError>)
    requires
        forall|i: int| 0 <= i < entries_to_add@.len() ==> cb_has(
            current_balances@,
            #[trigger] entries_to_add@[i].0,
        ),
        forall|i: int| 0 <= i < entries_to_add@.len() ==> bucket_fits(
            cb_value(current_balances@, #[trigger] entries_to_add@[i].0),
            entries_to_add@[i].1,
        ),
    ensures
        match r {
            Ok(v) => spec_new_snapshots(time, current_balances@, entries_to_add@) == Ok::<
                NewBalancesView,
                VelocityError,
            >(nb_view(v@)),
            Err(e) => spec_new_snapshots(time, current_balances@, entries_to_add@) == Err::<
                NewBalancesView,
                VelocityError,
            >(e),
        },
{
    let n = entries_to_add.buckets.len();
    let mut out: Vec<BucketSnapshots> = Vec::new();
    let mut i: usize = 0;
    proof {
        assert(entries_to_add@.skip(0) =~= entries_to_add@);
        assert(nb_view(out@) + Seq::<(VelocityBalanceKey, Seq<BalanceSnapshot>)>::empty()
            =~= nb_view(out@));
    }
    while i < n
        invariant
            n == entries_to_add@.len(),
            n == entries_to_add.buckets@.len(),
            0 <= i <= n,
            forall|k: int| 0 <= k < entries_to_add@.len() ==> cb_has(
                current_balances@,
                #[trigger] entries_to_add@[k].0,
            ),
            forall|k: int| 0 <= k < entries_to_add@.len() ==> bucket_fits(
                cb_value(current_balances@, #[trigger] entries_to_add@[k].0),
                entries_to_add@[k].1,
            ),
            spec_new_snapshots(time, current_balances@, entries_to_add@) == nb_combine(
                nb_view(out@),
                spec_new_snapshots(time, current_balances@, entries_to_add@.skip(i as int)),
            ),
        decreases n - i,
    {
        proof {
            assert(entries_to_add@.skip(i as int)[0] == entries_to_add@[i as int]);
            assert(entries_to_add@.skip(i as int).drop_first() =~= entries_to_add@.skip(
                i as int + 1,
            ));
        }
        let key = entries_to_add.buckets[i].key;
        let baseline = match find_current_balance(current_balances, &key) {
            Some(c) => c,
            None => {
                // Defensively unreachable: the caller fetched every bucket key.
                return Err(VelocityError::Persistence);
            },
        };
        let versions = match fold_bucket(
            &context,
            time,
            &key,
            baseline,
            &entries_to_add.buckets[i].pairs,
        ) {
            Ok(v) => v,
            Err(e) => {
                return Err(e);
            },
        };
        let ghost vsnap = versions@;
        let ghost out_old = out@;
        out.push(BucketSnapshots { key, versions });
        proof {
            assert(entries_to_add@[i as int] == (key, entries_to_add.buckets@[i as int].pairs@));
            assert(spec_fold_bucket(time, key, baseline, entries_to_add@[i as int].1) == Ok::<
                Seq<BalanceSnapshot>,
                VelocityError,
            >(vsnap));
            let tail = spec_new_snapshots(
                time,
                current_balances@,
                entries_to_add@.skip(i as int + 1),
            );
            assert(spec_new_snapshots(time, current_balances@, entries_to_add@.skip(i as int))
                == (match tail {
                Err(e) => Err::<NewBalancesView, VelocityError>(e),
                Ok(rest) => Ok(seq![(key, vsnap)] + rest),
            }));
            match tail {
                Err(_) => {},
                Ok(rest) => {
                    assert(nb_view(out@) =~= nb_view(out_old).push((key, vsnap)));
                    assert(nb_view(out_old) + (seq![(key, vsnap)] + rest) =~= nb_view(out@)
                        + rest);
                },
            }
        }
        i = i + 1;
    }
    proof {
        assert(entries_to_add@.skip(n as int).len() == 0);
        assert(nb_view(out@) + Seq::<(VelocityBalanceKey, Seq<BalanceSnapshot>)>::empty()
            =~= nb_view(out@));
    }
    Ok(out)
}

} // verus!
