//! The library-wide laws: what the velocity check guarantees, proved once
//! and for all over the specification functions the contracts use.

use vstd::prelude::*;

use crate::primitives::{BalanceSnapshot, DebitOrCredit, EntryValues, TransactionValues,
    VelocityBalanceKey, VelocityError};
use crate::account_control::{spec_enforce, AccountControls, AccountVelocityLimit,
    ControlCondition, DirectionFilter, WindowSpec};
use crate::context::EvalContext;
use crate::selector::{bm_append, bm_has_key, bm_index_of, bm_wf, cfg_lookup, sel_control,
    sel_controls, sel_entries, sel_entry, sel_limits, spec_bucket_key, spec_select, BucketEntry,
    BucketsView};
use crate::snapshot::{base_total, base_version, bucket_fits, cb_value, lemma_sum_units_take_le,
    lemma_sum_units_take_succ, pair_units, spec_apply, spec_fold_bucket, spec_new_snapshots,
    sum_units, CurrentBalance, NewBalancesView};
use crate::store::{apply_news, current_of, stored_versions};
use crate::velocity::{outcome_fits, spec_currents, spec_eval_context, spec_outcome};

verus! {

/// An account the configuration attaches no control to.
pub open spec fn account_uncontrolled(cfg: Seq<AccountControls>, account_id: u64) -> bool {
    match cfg_lookup(cfg, account_id) {
        None => true,
        Some(cs) => cs.len() == 0,
    }
}

proof fn lemma_sel_entries_all_skipped(
    m0: BucketsView,
    ctx: EvalContext,
    entries: Seq<EntryValues>,
    cfg: Seq<AccountControls>,
)
    requires
        forall|i: int| 0 <= i < entries.len() ==> account_uncontrolled(
            cfg,
            (#[trigger] entries[i]).account_id,
        ),
    ensures
        sel_entries(m0, ctx, entries, cfg) == Ok::<BucketsView, VelocityError>(m0),
    decreases entries.len(),
{
    if entries.len() > 0 {
        assert(account_uncontrolled(cfg, entries[0].account_id));
        assert(sel_entry(m0, ctx, entries[0], cfg) == Ok::<BucketsView, VelocityError>(m0));
        assert forall|i: int| 0 <= i < entries.drop_first().len() implies account_uncontrolled(
            cfg,
            (#[trigger] entries.drop_first()[i]).account_id,
        ) by {
            assert(entries.drop_first()[i] == entries[i + 1]);
        }
        lemma_sel_entries_all_skipped(m0, ctx, entries.drop_first(), cfg);
    }
}

/// A batch touching no velocity-controlled account is a no-op: the check
/// succeeds and the store is left exactly as it was — nothing is fetched,
/// nothing is written.
pub proof fn lemma_uncontrolled_batch_is_noop(
    m: Map<VelocityBalanceKey, Seq<BalanceSnapshot>>,
    time: u64,
    tx: TransactionValues,
    entries: Seq<EntryValues>,
    cfg: Seq<AccountControls>,
)
    requires
        forall|i: int| 0 <= i < entries.len() ==> account_uncontrolled(
            cfg,
            (#[trigger] entries[i]).account_id,
        ),
    ensures
        spec_select(spec_eval_context(tx), entries, cfg) == Ok::<BucketsView, VelocityError>(
            Seq::empty(),
        ),
        outcome_fits(m, tx, entries, cfg),
        spec_outcome(m, time, tx, entries, cfg) == Ok::<
            Map<VelocityBalanceKey, Seq<BalanceSnapshot>>,
            VelocityError,
        >(m),
{
    lemma_sel_entries_all_skipped(Seq::empty(), spec_eval_context(tx), entries, cfg);
    assert(spec_new_snapshots(time, spec_currents(m, Seq::empty()), Seq::empty()) == Ok::<
        NewBalancesView,
        VelocityError,
    >(Seq::empty()));
    assert(apply_news(m, Seq::empty()) == m);
}

proof fn lemma_new_snapshots_len(
    time: u64,
    cb: Seq<CurrentBalance>,
    buckets: BucketsView,
    news: NewBalancesView,
)
    requires
        spec_new_snapshots(time, cb, buckets) == Ok::<NewBalancesView, VelocityError>(news),
    ensures
        news.len() == buckets.len(),
    decreases buckets.len(),
{
    if buckets.len() > 0 {
        let key = buckets[0].0;
        let vs = spec_fold_bucket(time, key, cb_value(cb, key), buckets[0].1)->Ok_0;
        let rest = spec_new_snapshots(time, cb, buckets.drop_first())->Ok_0;
        lemma_new_snapshots_len(time, cb, buckets.drop_first(), rest);
        assert(news == seq![(key, vs)] + rest);
    }
}

/// Buckets are folded independently: in a successful check, what each
/// bucket produced is exactly the enforced fold of that bucket's own pairs
/// from that bucket's own current snapshot — no other bucket's totals enter.
/// In particular, entries mapped to two distinct windows accumulate and are
/// enforced in two independent buckets.
pub proof fn lemma_buckets_fold_independently(
    time: u64,
    cb: Seq<CurrentBalance>,
    buckets: BucketsView,
    news: NewBalancesView,
    i: int,
)
    requires
        spec_new_snapshots(time, cb, buckets) == Ok::<NewBalancesView, VelocityError>(news),
        0 <= i < buckets.len(),
    ensures
        news.len() == buckets.len(),
        news[i].0 == buckets[i].0,
        Ok::<Seq<BalanceSnapshot>, VelocityError>(news[i].1) == spec_fold_bucket(
            time,
            buckets[i].0,
            cb_value(cb, buckets[i].0),
            buckets[i].1,
        ),
    decreases i,
{
    lemma_new_snapshots_len(time, cb, buckets, news);
    let key = buckets[0].0;
    let vs = spec_fold_bucket(time, key, cb_value(cb, key), buckets[0].1)->Ok_0;
    let rest = spec_new_snapshots(time, cb, buckets.drop_first())->Ok_0;
    assert(news == seq![(key, vs)] + rest);
    if i == 0 {
        assert(news[0] == (key, vs));
    } else {
        assert(buckets.drop_first()[i - 1] == buckets[i]);
        lemma_buckets_fold_independently(time, cb, buckets.drop_first(), rest, i - 1);
        assert(news[i] == rest[i - 1]);
    }
}

/// Two bucket keys over distinct windows are distinct buckets, whatever
/// else they share: accumulation under one never touches the other.
pub proof fn lemma_distinct_windows_distinct_buckets(
    w1: u64,
    w2: u64,
    e1: EntryValues,
    e2: EntryValues,
    control_id1: u64,
    control_id2: u64,
    limit_id1: u64,
    limit_id2: u64,
)
    requires
        w1 != w2,
    ensures
        spec_bucket_key(w1, e1, control_id1, limit_id1) != spec_bucket_key(
            w2,
            e2,
            control_id2,
            limit_id2,
        ),
{
}

proof fn lemma_fold_bucket_len(
    time: u64,
    key: VelocityBalanceKey,
    baseline: Option<BalanceSnapshot>,
    ps: Seq<crate::selector::BucketEntry>,
    vs: Seq<BalanceSnapshot>,
)
    requires
        spec_fold_bucket(time, key, baseline, ps) == Ok::<Seq<BalanceSnapshot>, VelocityError>(
            vs,
        ),
    ensures
        vs.len() == ps.len(),
    decreases ps.len(),
{
    if ps.len() > 0 {
        let snap = crate::snapshot::spec_apply(time, baseline, ps[0].entry);
        let rest = spec_fold_bucket(time, key, Some(snap), ps.drop_first())->Ok_0;
        lemma_fold_bucket_len(time, key, Some(snap), ps.drop_first(), rest);
        assert(vs == seq![snap] + rest);
    }
}

/// A successful fold numbers its versions consecutively after the
/// baseline's: the rows an operation appends are new, distinct versions,
/// never a rewrite of a stored one.
pub proof fn lemma_fold_versions_consecutive(
    time: u64,
    key: VelocityBalanceKey,
    baseline: Option<BalanceSnapshot>,
    ps: Seq<BucketEntry>,
    vs: Seq<BalanceSnapshot>,
)
    requires
        bucket_fits(baseline, ps),
        spec_fold_bucket(time, key, baseline, ps) == Ok::<Seq<BalanceSnapshot>, VelocityError>(
            vs,
        ),
    ensures
        vs.len() == ps.len(),
        forall|i: int| 0 <= i < vs.len() ==> (#[trigger] vs[i]).version == base_version(baseline)
            + i + 1,
    decreases ps.len(),
{
    lemma_fold_bucket_len(time, key, baseline, ps, vs);
    if ps.len() > 0 {
        lemma_apply_step(time, baseline, ps);
        let snap = spec_apply(time, baseline, ps[0].entry);
        let rest = spec_fold_bucket(time, key, Some(snap), ps.drop_first())->Ok_0;
        assert(vs == seq![snap] + rest);
        assert(bucket_fits(Some(snap), ps.drop_first())) by {
            lemma_sum_units_drop_first(ps, DebitOrCredit::Debit);
            lemma_sum_units_drop_first(ps, DebitOrCredit::Credit);
        }
        lemma_fold_versions_consecutive(time, key, Some(snap), ps.drop_first(), rest);
        assert forall|i: int| 0 <= i < vs.len() implies (#[trigger] vs[i]).version
            == base_version(baseline) + i + 1 by {
            if i > 0 {
                assert(vs[i] == rest[i - 1]);
            }
        }
    }
}

proof fn lemma_apply_news_untouched(
    m: Map<VelocityBalanceKey, Seq<BalanceSnapshot>>,
    news: NewBalancesView,
    key: VelocityBalanceKey,
)
    requires
        forall|i: int| 0 <= i < news.len() ==> (#[trigger] news[i]).0 != key,
    ensures
        stored_versions(apply_news(m, news), key) == stored_versions(m, key),
    decreases news.len(),
{
    if news.len() > 0 {
        let m1 = m.insert(news[0].0, stored_versions(m, news[0].0) + news[0].1);
        assert forall|i: int| 0 <= i < news.drop_first().len() implies (#[trigger] news
            .drop_first()[i]).0 != key by {
            assert(news.drop_first()[i] == news[i + 1]);
        }
        lemma_apply_news_untouched(m1, news.drop_first(), key);
        assert(stored_versions(m1, key) == stored_versions(m, key));
    }
}

proof fn lemma_apply_news_current(
    m: Map<VelocityBalanceKey, Seq<BalanceSnapshot>>,
    news: NewBalancesView,
    i: int,
)
    requires
        0 <= i < news.len(),
        news[i].1.len() > 0,
        forall|a: int, b: int| 0 <= a < b < news.len() ==> news[a].0 != news[b].0,
    ensures
        current_of(apply_news(m, news), news[i].0) == Some(news[i].1.last()),
    decreases news.len(),
{
    let m1 = m.insert(news[0].0, stored_versions(m, news[0].0) + news[0].1);
    if i == 0 {
        assert forall|j: int| 0 <= j < news.drop_first().len() implies (#[trigger] news
            .drop_first()[j]).0 != news[0].0 by {
            assert(news.drop_first()[j] == news[j + 1]);
        }
        lemma_apply_news_untouched(m1, news.drop_first(), news[0].0);
        assert(stored_versions(m1, news[0].0) == stored_versions(m, news[0].0) + news[0].1);
        assert(stored_versions(m1, news[0].0).last() == news[0].1.last());
    } else {
        assert forall|a: int, b: int| 0 <= a < b < news.drop_first().len() implies news
            .drop_first()[a].0 != news.drop_first()[b].0 by {
            assert(news.drop_first()[a] == news[a + 1]);
            assert(news.drop_first()[b] == news[b + 1]);
        }
        assert(news.drop_first()[i - 1] == news[i]);
        lemma_apply_news_current(m1, news.drop_first(), i - 1);
    }
}

/// Serialization leaves no update behind: when one operation commits, the
/// current balance any later operation reads for a bucket it wrote is
/// exactly the last snapshot version it committed for that bucket. A later
/// operation starts from those totals, never from a stale snapshot.
pub proof fn lemma_no_lost_update(
    m: Map<VelocityBalanceKey, Seq<BalanceSnapshot>>,
    time: u64,
    tx: TransactionValues,
    entries: Seq<EntryValues>,
    cfg: Seq<AccountControls>,
    buckets: BucketsView,
    news: NewBalancesView,
    i: int,
)
    requires
        spec_select(spec_eval_context(tx), entries, cfg) == Ok::<BucketsView, VelocityError>(
            buckets,
        ),
        spec_new_snapshots(time, spec_currents(m, buckets), buckets) == Ok::<
            NewBalancesView,
            VelocityError,
        >(news),
        0 <= i < buckets.len(),
        buckets[i].1.len() > 0,
    ensures
        spec_outcome(m, time, tx, entries, cfg) == Ok::<
            Map<VelocityBalanceKey, Seq<BalanceSnapshot>>,
            VelocityError,
        >(apply_news(m, news)),
        news.len() == buckets.len(),
        news[i].1.len() > 0,
        current_of(apply_news(m, news), buckets[i].0) == Some(news[i].1.last()),
{
    crate::selector::lemma_select_wf(spec_eval_context(tx), entries, cfg);
    assert(bm_wf(buckets));
    let cb = spec_currents(m, buckets);
    lemma_buckets_fold_independently(time, cb, buckets, news, i);
    lemma_fold_bucket_len(time, buckets[i].0, cb_value(cb, buckets[i].0), buckets[i].1,
        news[i].1);
    assert forall|a: int, b: int| 0 <= a < b < news.len() implies news[a].0 != news[b].0 by {
        lemma_buckets_fold_independently(time, cb, buckets, news, a);
        lemma_buckets_fold_independently(time, cb, buckets, news, b);
    }
    lemma_apply_news_current(m, news, i);
}

/// The total a bucket's rolling balance reaches after its first `j` pairs.
pub open spec fn running_total(
    baseline: Option<BalanceSnapshot>,
    ps: Seq<BucketEntry>,
    j: int,
    direction: DebitOrCredit,
) -> int {
    base_total(baseline, direction) + sum_units(ps.take(j), direction)
}

proof fn lemma_sum_units_drop_first(s: Seq<BucketEntry>, direction: DebitOrCredit)
    requires
        s.len() > 0,
    ensures
        sum_units(s, direction) == pair_units(s[0], direction) + sum_units(
            s.drop_first(),
            direction,
        ),
    decreases s.len(),
{
    if s.len() == 1 {
        assert(s.drop_first().len() == 0);
        assert(s.drop_last().len() == 0);
        assert(s.last() == s[0]);
        assert(sum_units(s.drop_last(), direction) == 0);
        assert(sum_units(s.drop_first(), direction) == 0);
        assert(sum_units(s, direction) == sum_units(s.drop_last(), direction) + pair_units(
            s.last(),
            direction,
        ));
    } else {
        lemma_sum_units_drop_first(s.drop_last(), direction);
        assert(s.drop_last()[0] == s[0]);
        assert(s.drop_first().len() > 0);
        assert(s.drop_first().drop_last() =~= s.drop_last().drop_first());
        assert(s.drop_first().last() == s.last());
        assert(sum_units(s.drop_first(), direction) == sum_units(
            s.drop_first().drop_last(),
            direction,
        ) + pair_units(s.drop_first().last(), direction));
        assert(sum_units(s, direction) == sum_units(s.drop_last(), direction) + pair_units(
            s.last(),
            direction,
        ));
    }
}

proof fn lemma_apply_step(time: u64, baseline: Option<BalanceSnapshot>, ps: Seq<BucketEntry>)
    requires
        ps.len() > 0,
        bucket_fits(baseline, ps),
    ensures
        spec_apply(time, baseline, ps[0].entry).debit_total == base_total(
            baseline,
            DebitOrCredit::Debit,
        ) + pair_units(ps[0], DebitOrCredit::Debit),
        spec_apply(time, baseline, ps[0].entry).credit_total == base_total(
            baseline,
            DebitOrCredit::Credit,
        ) + pair_units(ps[0], DebitOrCredit::Credit),
        spec_apply(time, baseline, ps[0].entry).version == base_version(baseline) + 1,
{
    lemma_sum_units_take_succ(ps, 0, DebitOrCredit::Debit);
    lemma_sum_units_take_succ(ps, 0, DebitOrCredit::Credit);
    lemma_sum_units_take_le(ps, 1, DebitOrCredit::Debit);
    lemma_sum_units_take_le(ps, 1, DebitOrCredit::Credit);
    assert(sum_units(ps.take(0), DebitOrCredit::Debit) == 0);
    assert(sum_units(ps.take(0), DebitOrCredit::Credit) == 0);
}

/// A batch whose cumulative total in the limited direction first exceeds
/// the threshold at pair `k` fails with `LimitExceeded` attributed to that
/// very step: the error carries this bucket's key, the limit, and the
/// totals the rolling balance had just reached. Since the check fails, the
/// caller's contract guarantees no snapshot row is persisted.
pub proof fn lemma_first_breach_fails(
    time: u64,
    key: VelocityBalanceKey,
    baseline: Option<BalanceSnapshot>,
    ps: Seq<BucketEntry>,
    limit: AccountVelocityLimit,
    k: int,
)
    requires
        bucket_fits(baseline, ps),
        forall|i: int| 0 <= i < ps.len() ==> (#[trigger] ps[i]).limit == limit,
        0 <= k < ps.len(),
        forall|j: int| 1 <= j <= k ==> #[trigger] running_total(
            baseline,
            ps,
            j,
            limit.limited_direction,
        ) <= limit.threshold,
        running_total(baseline, ps, k + 1, limit.limited_direction) > limit.threshold,
    ensures
        spec_fold_bucket(time, key, baseline, ps) == Err::<Seq<BalanceSnapshot>, VelocityError>(
            VelocityError::LimitExceeded {
                key,
                limit_id: limit.limit_id,
                debit_total: running_total(baseline, ps, k + 1, DebitOrCredit::Debit) as u64,
                credit_total: running_total(baseline, ps, k + 1, DebitOrCredit::Credit) as u64,
                threshold: limit.threshold,
            },
        ),
    decreases k,
{
    let snap = spec_apply(time, baseline, ps[0].entry);
    lemma_apply_step(time, baseline, ps);
    lemma_sum_units_take_succ(ps, 0, DebitOrCredit::Debit);
    lemma_sum_units_take_succ(ps, 0, DebitOrCredit::Credit);
    assert(sum_units(ps.take(0), DebitOrCredit::Debit) == 0);
    assert(sum_units(ps.take(0), DebitOrCredit::Credit) == 0);
    assert(snap.debit_total == running_total(baseline, ps, 1, DebitOrCredit::Debit));
    assert(snap.credit_total == running_total(baseline, ps, 1, DebitOrCredit::Credit));
    assert(ps[0].limit == limit);
    if k == 0 {
        assert(snap.spec_total(limit.limited_direction) > limit.threshold);
    } else {
        assert(snap.spec_total(limit.limited_direction) == running_total(
            baseline,
            ps,
            1,
            limit.limited_direction,
        ));
        assert(running_total(baseline, ps, 1, limit.limited_direction) <= limit.threshold);
        assert(spec_enforce(limit, key, snap) == Ok::<(), VelocityError>(()));
        let rest = ps.drop_first();
        lemma_sum_units_drop_first(ps, DebitOrCredit::Debit);
        lemma_sum_units_drop_first(ps, DebitOrCredit::Credit);
        assert(bucket_fits(Some(snap), rest));
        assert forall|i: int| 0 <= i < rest.len() implies (#[trigger] rest[i]).limit == limit by {
            assert(rest[i] == ps[i + 1]);
        }
        assert forall|j: int| 1 <= j <= k - 1 implies #[trigger] running_total(
            Some(snap),
            rest,
            j,
            limit.limited_direction,
        ) <= limit.threshold by {
            lemma_take_shift(ps, j, DebitOrCredit::Debit);
            lemma_take_shift(ps, j, DebitOrCredit::Credit);
            assert(running_total(baseline, ps, j + 1, limit.limited_direction)
                <= limit.threshold);
        }
        lemma_take_shift(ps, k, DebitOrCredit::Debit);
        lemma_take_shift(ps, k, DebitOrCredit::Credit);
        assert(running_total(Some(snap), rest, k, limit.limited_direction) > limit.threshold);
        lemma_first_breach_fails(time, key, Some(snap), rest, limit, k - 1);
    }
}

proof fn lemma_take_shift(ps: Seq<BucketEntry>, j: int, direction: DebitOrCredit)
    requires
        0 < j + 1 <= ps.len(),
        ps.len() > 0,
    ensures
        sum_units(ps.drop_first().take(j), direction) == sum_units(ps.take(j + 1), direction)
            - pair_units(ps[0], direction),
{
    let t = ps.take(j + 1);
    assert(t.len() > 0);
    assert(t[0] == ps[0]);
    lemma_sum_units_drop_first(t, direction);
    assert(t.drop_first() =~= ps.drop_first().take(j));
}

/// The pairs a batch contributes to one bucket under one limit.
pub open spec fn entry_pairs(entries: Seq<EntryValues>, limit: AccountVelocityLimit) -> Seq<
    BucketEntry,
> {
    Seq::new(entries.len(), |i: int| BucketEntry { limit, entry: entries[i] })
}

/// A configuration carrying exactly one account with one always-enforced
/// control owning one all-time limit over both directions.
pub open spec fn single_limit_cfg(
    cfg: Seq<AccountControls>,
    account_id: u64,
    control_id: u64,
    limit: AccountVelocityLimit,
) -> bool {
    &&& cfg.len() == 1
    &&& cfg[0].account.account_id == account_id
    &&& cfg[0].controls@.len() == 1
    &&& cfg[0].controls@[0].control_id == control_id
    &&& cfg[0].controls@[0].condition == ControlCondition::Always
    &&& cfg[0].controls@[0].velocity_limits@.len() == 1
    &&& cfg[0].controls@[0].velocity_limits@[0] == limit
    &&& limit.window == WindowSpec::AllTime
    &&& limit.applies_to == DirectionFilter::Both
}

/// A batch whose every entry posts to one account in one currency and
/// journal, so the whole batch accumulates in a single all-time bucket.
pub open spec fn uniform_batch(
    entries: Seq<EntryValues>,
    account_id: u64,
    currency: u64,
    journal_id: u64,
) -> bool {
    forall|i: int| 0 <= i < entries.len() ==> (#[trigger] entries[i]).account_id == account_id
        && entries[i].currency == currency && entries[i].journal_id == journal_id
}

proof fn lemma_single_select(
    acc: BucketsView,
    ctx: EvalContext,
    entries: Seq<EntryValues>,
    cfg: Seq<AccountControls>,
    limit: AccountVelocityLimit,
    key: VelocityBalanceKey,
)
    requires
        single_limit_cfg(cfg, key.account_id, key.control_id, limit),
        uniform_batch(entries, key.account_id, key.currency, key.journal_id),
        key.window == 0,
        key.limit_id == limit.limit_id,
        acc.len() <= 1,
        acc.len() == 1 ==> acc[0].0 == key,
        entries.len() > 0 || acc.len() == 1,
    ensures
        ({
            let ps0: Seq<BucketEntry> = if acc.len() == 0 {
                Seq::empty()
            } else {
                acc[0].1
            };
            sel_entries(acc, ctx, entries, cfg) == Ok::<BucketsView, VelocityError>(
                seq![(key, ps0 + entry_pairs(entries, limit))],
            )
        }),
    decreases entries.len(),
{
    let ps0: Seq<BucketEntry> = if acc.len() == 0 { Seq::empty() } else { acc[0].1 };
    if entries.len() == 0 {
        assert(acc =~= seq![(key, ps0 + entry_pairs(entries, limit))]) by {
            assert(ps0 + entry_pairs(entries, limit) =~= ps0);
        }
    } else {
        let e0 = entries[0];
        assert(e0.account_id == key.account_id);
        let controls = cfg[0].controls@;
        assert(cfg_lookup(cfg, e0.account_id) == Some(controls));
        let ectx = crate::context::spec_context_for_entry(ctx, e0);
        assert(crate::account_control::spec_needs_enforcement(
            controls[0].condition,
            ectx,
        ) == Ok::<bool, VelocityError>(true));
        assert(crate::account_control::spec_window_for_enforcement(limit, ectx, e0) == Ok::<
            Option<u64>,
            VelocityError,
        >(Some(0u64)));
        let p0 = BucketEntry { limit, entry: e0 };
        assert(spec_bucket_key(0u64, e0, key.control_id, limit.limit_id) == key);
        let acc1 = bm_append(acc, key, p0);
        if acc.len() == 0 {
            assert(!bm_has_key(acc, key));
            assert(acc1 =~= seq![(key, ps0.push(p0))]) by {
                assert(seq![p0] =~= ps0.push(p0));
            }
        } else {
            assert(acc[0].0 == key);
            assert(bm_has_key(acc, key));
            let w = bm_index_of(acc, key);
            assert(0 <= w < acc.len() && acc[w].0 == key);
            assert(w == 0);
            assert(acc1 =~= seq![(key, ps0.push(p0))]);
        }
        assert(sel_limits(acc, ctx, e0, key.control_id, controls[0].velocity_limits@) == Ok::<
            BucketsView,
            VelocityError,
        >(acc1)) by {
            assert(controls[0].velocity_limits@.drop_first().len() == 0);
            assert(sel_limits(
                acc1,
                ctx,
                e0,
                key.control_id,
                controls[0].velocity_limits@.drop_first(),
            ) == Ok::<BucketsView, VelocityError>(acc1));
        }
        assert(sel_control(acc, ctx, e0, controls[0]) == Ok::<BucketsView, VelocityError>(acc1));
        assert(sel_controls(acc, ctx, e0, controls) == Ok::<BucketsView, VelocityError>(acc1))
            by {
            assert(controls.drop_first().len() == 0);
            assert(sel_controls(acc1, ctx, e0, controls.drop_first()) == Ok::<
                BucketsView,
                VelocityError,
            >(acc1));
        }
        assert(sel_entry(acc, ctx, e0, cfg) == Ok::<BucketsView, VelocityError>(acc1));
        assert forall|i: int|
            0 <= i < entries.drop_first().len() implies (#[trigger] entries.drop_first()[
            i]).account_id == key.account_id && entries.drop_first()[i].currency == key.currency
            && entries.drop_first()[i].journal_id == key.journal_id by {
            assert(entries.drop_first()[i] == entries[i + 1]);
        }
        lemma_single_select(acc1, ctx, entries.drop_first(), cfg, limit, key);
        assert(ps0.push(p0) + entry_pairs(entries.drop_first(), limit) =~= ps0 + entry_pairs(
            entries,
            limit,
        )) by {
            assert forall|i: int|
                0 <= i < entry_pairs(entries.drop_first(), limit).len() implies entry_pairs(
                entries.drop_first(),
                limit,
            )[i] == entry_pairs(entries, limit)[i + 1] by {
                assert(entries.drop_first()[i] == entries[i + 1]);
            }
            assert(entry_pairs(entries, limit)[0] == p0);
        }
    }
}

/// The whole check on one controlled account with one all-time limit of
/// threshold T: a uniform batch whose cumulative total in the limited
/// direction first exceeds T at entry k fails with `LimitExceeded` carrying
/// the bucket's key and the totals reached at entry k — and, through the
/// orchestrator's contract, no snapshot row is persisted.
pub proof fn lemma_single_limit_first_breach(
    m: Map<VelocityBalanceKey, Seq<BalanceSnapshot>>,
    time: u64,
    tx: TransactionValues,
    entries: Seq<EntryValues>,
    cfg: Seq<AccountControls>,
    limit: AccountVelocityLimit,
    key: VelocityBalanceKey,
    k: int,
)
    requires
        single_limit_cfg(cfg, key.account_id, key.control_id, limit),
        uniform_batch(entries, key.account_id, key.currency, key.journal_id),
        key.window == 0,
        key.limit_id == limit.limit_id,
        bucket_fits(current_of(m, key), entry_pairs(entries, limit)),
        0 <= k < entries.len(),
        forall|j: int| 1 <= j <= k ==> #[trigger] running_total(
            current_of(m, key),
            entry_pairs(entries, limit),
            j,
            limit.limited_direction,
        ) <= limit.threshold,
        running_total(current_of(m, key), entry_pairs(entries, limit), k + 1,
            limit.limited_direction) > limit.threshold,
    ensures
        spec_outcome(m, time, tx, entries, cfg) == Err::<
            Map<VelocityBalanceKey, Seq<BalanceSnapshot>>,
            VelocityError,
        >(VelocityError::LimitExceeded {
            key,
            limit_id: limit.limit_id,
            debit_total: running_total(current_of(m, key), entry_pairs(entries, limit), k + 1,
                DebitOrCredit::Debit) as u64,
            credit_total: running_total(current_of(m, key), entry_pairs(entries, limit), k + 1,
                DebitOrCredit::Credit) as u64,
            threshold: limit.threshold,
        }),
{
    let ctx = spec_eval_context(tx);
    let pairs = entry_pairs(entries, limit);
    lemma_single_select(Seq::empty(), ctx, entries, cfg, limit, key);
    let buckets: BucketsView = seq![(key, pairs)];
    assert(spec_select(ctx, entries, cfg) == Ok::<BucketsView, VelocityError>(buckets)) by {
        assert(Seq::<BucketEntry>::empty() + pairs =~= pairs);
    }
    let speccb = spec_currents(m, buckets);
    assert(speccb[0].key == key && speccb[0].current == current_of(m, key));
    assert(cb_value(speccb, key) == current_of(m, key));
    lemma_first_breach_fails(time, key, current_of(m, key), pairs, limit, k);
    let e = VelocityError::LimitExceeded {
        key,
        limit_id: limit.limit_id,
        debit_total: running_total(current_of(m, key), pairs, k + 1, DebitOrCredit::Debit)
            as u64,
        credit_total: running_total(current_of(m, key), pairs, k + 1, DebitOrCredit::Credit)
            as u64,
        threshold: limit.threshold,
    };
    assert(spec_fold_bucket(time, key, current_of(m, key), pairs) == Err::<
        Seq<BalanceSnapshot>,
        VelocityError,
    >(e));
    assert(spec_new_snapshots(time, speccb, buckets) == Err::<NewBalancesView, VelocityError>(
        e,
    ));
}

/// The fold is deterministic: two checks over the same grouped entries,
/// from stores answering the same current snapshot for every touched
/// bucket, produce exactly the same sequence of snapshot totals — whatever
/// else the two stores hold.
pub proof fn lemma_deterministic_fold(
    time: u64,
    cb1: Seq<CurrentBalance>,
    cb2: Seq<CurrentBalance>,
    buckets: BucketsView,
)
    requires
        forall|i: int| 0 <= i < buckets.len() ==> cb_value(cb1, (#[trigger] buckets[i]).0)
            == cb_value(cb2, buckets[i].0),
    ensures
        spec_new_snapshots(time, cb1, buckets) == spec_new_snapshots(time, cb2, buckets),
    decreases buckets.len(),
{
    if buckets.len() > 0 {
        assert(cb_value(cb1, buckets[0].0) == cb_value(cb2, buckets[0].0));
        assert forall|i: int| 0 <= i < buckets.drop_first().len() implies cb_value(
            cb1,
            (#[trigger] buckets.drop_first()[i]).0,
        ) == cb_value(cb2, buckets.drop_first()[i].0) by {
            assert(buckets.drop_first()[i] == buckets[i + 1]);
        }
        lemma_deterministic_fold(time, cb1, cb2, buckets.drop_first());
    }
}

/// The store is append-only: whatever an operation writes, every bucket's
/// previously stored versions stay in place, as a prefix; new versions are
/// only ever added after them.
pub proof fn lemma_apply_news_append_only(
    m: Map<VelocityBalanceKey, Seq<BalanceSnapshot>>,
    news: NewBalancesView,
    key: VelocityBalanceKey,
)
    ensures
        exists|suffix: Seq<BalanceSnapshot>| stored_versions(apply_news(m, news), key)
            == stored_versions(m, key) + suffix,
    decreases news.len(),
{
    if news.len() == 0 {
        assert(stored_versions(apply_news(m, news), key) == stored_versions(m, key)
            + Seq::<BalanceSnapshot>::empty()) by {
            assert(stored_versions(m, key) + Seq::<BalanceSnapshot>::empty() =~= stored_versions(
                m,
                key,
            ));
        }
    } else {
        let m1 = m.insert(news[0].0, stored_versions(m, news[0].0) + news[0].1);
        lemma_apply_news_append_only(m1, news.drop_first(), key);
        let suffix = choose|suffix: Seq<BalanceSnapshot>|
            stored_versions(apply_news(m1, news.drop_first()), key) == stored_versions(m1, key)
                + suffix;
        if news[0].0 == key {
            assert(stored_versions(m1, key) == stored_versions(m, key) + news[0].1);
            assert(stored_versions(m, key) + news[0].1 + suffix == stored_versions(m, key) + (
            news[0].1 + suffix)) by {
                assert(stored_versions(m, key) + news[0].1 + suffix =~= stored_versions(m, key)
                    + (news[0].1 + suffix));
            }
            assert(stored_versions(apply_news(m, news), key) == stored_versions(m, key) + (
            news[0].1 + suffix));
        } else {
            assert(stored_versions(m1, key) == stored_versions(m, key));
            assert(stored_versions(apply_news(m, news), key) == stored_versions(m, key)
                + suffix);
        }
    }
}

} // verus!
