//! Control selector: scans the ordered entry batch, filters to
//! velocity-controlled accounts, evaluates enforcement predicates, computes
//! the window bucket per (entry, limit), and groups entries into ordered
//! buckets keyed by [`VelocityBalanceKey`].
//!
//! Buckets are ordered by the first occurrence of their key in the entry
//! sequence, and within one bucket the (limit, entry) pairs keep the
//! original relative entry order.

use vstd::prelude::*;

use crate::account_control::{
    spec_needs_enforcement, spec_window_for_enforcement, AccountControls, AccountVelocityControl,
    AccountVelocityLimit,
};
use crate::context::{spec_context_for_entry, EvalContext};
use crate::primitives::{EntryValues, VelocityBalanceKey, VelocityError};

verus! {

/// One grouped pair: the limit to enforce and the entry to fold.
#[derive(Clone, Copy, PartialEq, Eq, Structural, Debug)]
pub struct BucketEntry {
    pub limit: AccountVelocityLimit,
    pub entry: EntryValues,
}

/// One bucket: a key and its ordered (limit, entry) pairs.
#[derive(Clone, PartialEq, Eq, Debug)]
pub struct BucketEntries {
    pub key: VelocityBalanceKey,
    pub pairs: Vec<BucketEntry>,
}

/// The grouped selection result: buckets in first-occurrence order.
#[derive(Clone, PartialEq, Eq, Debug)]
pub struct BucketMap {
    pub buckets: Vec<BucketEntries>,
}

/// The mathematical shape of a grouped selection result.
pub type BucketsView = Seq<(VelocityBalanceKey, Seq<BucketEntry>)>;

impl View for BucketMap {
    type V = BucketsView;

    open spec fn view(&self) -> BucketsView {
        Seq::new(self.buckets@.len(), |i: int| (self.buckets@[i].key, self.buckets@[i].pairs@))
    }
}

/// The bucket key an entry accumulates under for one (control, limit).
pub open spec fn spec_bucket_key(
    window: u64,
    entry: EntryValues,
    control_id: u64,
    limit_id: u64,
) -> VelocityBalanceKey {
    VelocityBalanceKey {
        window,
        currency: entry.currency,
        journal_id: entry.journal_id,
        account_id: entry.account_id,
        control_id,
        limit_id,
    }
}

/// Whether a grouped result already holds a bucket for this key.
pub open spec fn bm_has_key(m: BucketsView, key: VelocityBalanceKey) -> bool {
    exists|i: int| 0 <= i < m.len() && m[i].0 == key
}

/// The index of the bucket with this key (unique when keys are distinct).
pub open spec fn bm_index_of(m: BucketsView, key: VelocityBalanceKey) -> int {
    choose|i: int| 0 <= i < m.len() && m[i].0 == key
}

/// Bucket keys are pairwise distinct.
pub open spec fn bm_wf(m: BucketsView) -> bool {
    forall|i: int, j: int| 0 <= i < j < m.len() ==> m[i].0 != m[j].0
}

/// Appends one pair to its bucket, creating the bucket at the end when the
/// key is new: grouping preserves entry order within each bucket.
pub open spec fn bm_append(m: BucketsView, key: VelocityBalanceKey, p: BucketEntry) -> BucketsView {
    if bm_has_key(m, key) {
        let i = bm_index_of(m, key);
        m.update(i, (key, m[i].1.push(p)))
    } else {
        m.push((key, seq![p]))
    }
}

pub proof fn lemma_bm_append_wf(m: BucketsView, key: VelocityBalanceKey, p: BucketEntry)
    requires
        bm_wf(m),
    ensures
        bm_wf(bm_append(m, key, p)),
{
    if bm_has_key(m, key) {
        let i = bm_index_of(m, key);
        assert(0 <= i < m.len() && m[i].0 == key);
        let m2 = m.update(i, (key, m[i].1.push(p)));
        assert forall|a: int, b: int| 0 <= a < b < m2.len() implies m2[a].0 != m2[b].0 by {
            assert(m2[a].0 == m[a].0);
            assert(m2[b].0 == m[b].0);
        }
    }
}

/// Folds one limit sequence of a control that asked for enforcement:
/// each limit with an enforceable window appends its (limit, entry) pair.
pub open spec fn sel_limits(
    m: BucketsView,
    ctx: EvalContext,
    entry: EntryValues,
    control_id: u64,
    limits: Seq<AccountVelocityLimit>,
) -> Result<BucketsView, VelocityError>
    decreases limits.len(),
{
    if limits.len() == 0 {
        Ok(m)
    } else {
        let l = limits[0];
        match spec_window_for_enforcement(l, spec_context_for_entry(ctx, entry), entry) {
            Err(e) => Err(e),
            Ok(None) => sel_limits(m, ctx, entry, control_id, limits.drop_first()),
            Ok(Some(window)) => sel_limits(
                bm_append(
                    m,
                    spec_bucket_key(window, entry, control_id, l.limit_id),
                    BucketEntry { limit: l, entry },
                ),
                ctx,
                entry,
                control_id,
                limits.drop_first(),
            ),
        }
    }
}

/// Folds one control of an entry's account: its limits are consulted only
/// when the control's condition asks for enforcement.
pub open spec fn sel_control(
    m: BucketsView,
    ctx: EvalContext,
    entry: EntryValues,
    control: AccountVelocityControl,
) -> Result<BucketsView, VelocityError> {
    match spec_needs_enforcement(control.condition, spec_context_for_entry(ctx, entry)) {
        Err(e) => Err(e),
        Ok(false) => Ok(m),
        Ok(true) => sel_limits(m, ctx, entry, control.control_id, control.velocity_limits@),
    }
}

/// Folds the ordered controls attached to one entry's account.
pub open spec fn sel_controls(
    m: BucketsView,
    ctx: EvalContext,
    entry: EntryValues,
    controls: Seq<AccountVelocityControl>,
) -> Result<BucketsView, VelocityError>
    decreases controls.len(),
{
    if controls.len() == 0 {
        Ok(m)
    } else {
        match sel_control(m, ctx, entry, controls[0]) {
            Err(e) => Err(e),
            Ok(m1) => sel_controls(m1, ctx, entry, controls.drop_first()),
        }
    }
}

/// The ordered controls configured for an account, if any.
pub open spec fn cfg_lookup(cfg: Seq<AccountControls>, account_id: u64) -> Option<
    Seq<AccountVelocityControl>,
>
    decreases cfg.len(),
{
    if cfg.len() == 0 {
        None
    } else if cfg[0].account.account_id == account_id {
        Some(cfg[0].controls@)
    } else {
        cfg_lookup(cfg.drop_first(), account_id)
    }
}

/// Folds one entry: an account without controls is skipped outright.
pub open spec fn sel_entry(
    m: BucketsView,
    ctx: EvalContext,
    entry: EntryValues,
    cfg: Seq<AccountControls>,
) -> Result<BucketsView, VelocityError> {
    match cfg_lookup(cfg, entry.account_id) {
        None => Ok(m),
        Some(controls) => sel_controls(m, ctx, entry, controls),
    }
}

/// Folds the whole ordered entry batch, left to right, stopping at the
/// first evaluation fault.
pub open spec fn sel_entries(
    m: BucketsView,
    ctx: EvalContext,
    entries: Seq<EntryValues>,
    cfg: Seq<AccountControls>,
) -> Result<BucketsView, VelocityError>
    decreases entries.len(),
{
    if entries.len() == 0 {
        Ok(m)
    } else {
        match sel_entry(m, ctx, entries[0], cfg) {
            Err(e) => Err(e),
            Ok(m1) => sel_entries(m1, ctx, entries.drop_first(), cfg),
        }
    }
}

/// The full selection: which buckets the batch touches and, per bucket,
/// the ordered (limit, entry) pairs to fold.
pub open spec fn spec_select(
    ctx: EvalContext,
    entries: Seq<EntryValues>,
    cfg: Seq<AccountControls>,
) -> Result<BucketsView, VelocityError> {
    sel_entries(Seq::empty(), ctx, entries, cfg)
}

proof fn lemma_sel_limits_wf(
    m: BucketsView,
    ctx: EvalContext,
    entry: EntryValues,
    control_id: u64,
    limits: Seq<AccountVelocityLimit>,
)
    requires
        bm_wf(m),
    ensures
        sel_limits(m, ctx, entry, control_id, limits) matches Ok(m1) ==> bm_wf(m1),
    decreases limits.len(),
{
    if limits.len() > 0 {
        let l = limits[0];
        match spec_window_for_enforcement(l, spec_context_for_entry(ctx, entry), entry) {
            Err(_) => {},
            Ok(None) => {
                lemma_sel_limits_wf(m, ctx, entry, control_id, limits.drop_first());
            },
            Ok(Some(window)) => {
                let key = spec_bucket_key(window, entry, control_id, l.limit_id);
                let p = BucketEntry { limit: l, entry };
                lemma_bm_append_wf(m, key, p);
                lemma_sel_limits_wf(
                    bm_append(m, key, p),
                    ctx,
                    entry,
                    control_id,
                    limits.drop_first(),
                );
            },
        }
    }
}

proof fn lemma_sel_controls_wf(
    m: BucketsView,
    ctx: EvalContext,
    entry: EntryValues,
    controls: Seq<AccountVelocityControl>,
)
    requires
        bm_wf(m),
    ensures
        sel_controls(m, ctx, entry, controls) matches Ok(m1) ==> bm_wf(m1),
    decreases controls.len(),
{
    if controls.len() > 0 {
        lemma_sel_limits_wf(m, ctx, entry, controls[0].control_id, controls[0].velocity_limits@);
        match sel_control(m, ctx, entry, controls[0]) {
            Err(_) => {},
            Ok(m1) => {
                lemma_sel_controls_wf(m1, ctx, entry, controls.drop_first());
            },
        }
    }
}

proof fn lemma_sel_entries_wf(
    m: BucketsView,
    ctx: EvalContext,
    entries: Seq<EntryValues>,
    cfg: Seq<AccountControls>,
)
    requires
        bm_wf(m),
    ensures
        sel_entries(m, ctx, entries, cfg) matches Ok(m1) ==> bm_wf(m1),
    decreases entries.len(),
{
    if entries.len() > 0 {
        match cfg_lookup(cfg, entries[0].account_id) {
            None => {
                lemma_sel_entries_wf(m, ctx, entries.drop_first(), cfg);
            },
            Some(controls) => {
                lemma_sel_controls_wf(m, ctx, entries[0], controls);
                match sel_entry(m, ctx, entries[0], cfg) {
                    Err(_) => {},
                    Ok(m1) => {
                        lemma_sel_entries_wf(m1, ctx, entries.drop_first(), cfg);
                    },
                }
            },
        }
    }
}

/// Whatever the batch and the configuration, a successful selection groups
/// its pairs under pairwise distinct bucket keys.
pub proof fn lemma_select_wf(ctx: EvalContext, entries: Seq<EntryValues>, cfg: Seq<
    AccountControls,
>)
    ensures
        spec_select(ctx, entries, cfg) matches Ok(buckets) ==> bm_wf(buckets),
{
    lemma_sel_entries_wf(Seq::empty(), ctx, entries, cfg);
}

impl BucketMap {
    /// An empty grouping.
    pub fn new() -> (r: BucketMap)
        ensures
            r@.len() == 0,
            bm_wf(r@),
    {
        BucketMap { buckets: Vec::new() }
    }

    /// Whether the selection found nothing to enforce.
    pub fn is_empty(&self) -> (r: bool)
        ensures
            r == (self@.len() == 0),
    {
        self.buckets.len() == 0
    }

    /// Appends one pair to its bucket, creating the bucket when new.
    fn append(&mut self, key: VelocityBalanceKey, p: BucketEntry)
        requires
            bm_wf(old(self)@),
        ensures
            final(self)@ == bm_append(old(self)@, key, p),
            bm_wf(final(self)@),
    {
        proof {
            lemma_bm_append_wf(old(self)@, key, p);
        }
        let n = self.buckets.len();
        let mut i: usize = 0;
        while i < n
            invariant
                n == self.buckets@.len(),
                0 <= i <= n,
                *self == *old(self),
                bm_wf(old(self)@),
                forall|j: int| 0 <= j < i ==> old(self)@[j].0 != key,
            decreases n - i,
        {
            if self.buckets[i].key == key {
                proof {
                    assert(old(self)@[i as int].0 == key);
                    assert(bm_has_key(old(self)@, key));
                    let w = bm_index_of(old(self)@, key);
                    assert(0 <= w < old(self)@.len() && old(self)@[w].0 == key);
                    if w < i as int {
                        assert(old(self)@[w].0 != key);
                    }
                    if w > i as int {
                        assert(old(self)@[i as int].0 != old(self)@[w].0);
                    }
                    assert(w == i as int);
                }
                let mut b = self.buckets.remove(i);
                b.pairs.push(p);
                let ghost bsnap = b;
                self.buckets.insert(i, b);
                proof {
                    assert(self.buckets@ =~= old(self).buckets@.update(i as int, bsnap));
                    assert(bsnap.key == key);
                    assert(bsnap.pairs@ == old(self)@[i as int].1.push(p));
                    let m2 = bm_append(old(self)@, key, p);
                    assert(m2 == old(self)@.update(
                        i as int,
                        (key, old(self)@[i as int].1.push(p)),
                    ));
                    assert forall|j: int| 0 <= j < m2.len() implies self@[j] == m2[j] by {
                        if j == i as int {
                            assert(self.buckets@[j] == bsnap);
                            assert(self@[j] == (bsnap.key, bsnap.pairs@));
                        } else {
                            assert(self.buckets@[j] == old(self).buckets@[j]);
                        }
                    }
                    assert(self@ =~= m2);
                }
                return;
            }
            i = i + 1;
        }
        proof {
            assert(!bm_has_key(old(self)@, key));
        }
        let mut pairs: Vec<BucketEntry> = Vec::new();
        pairs.push(p);
        proof {
            assert(pairs@ =~= seq![p]);
        }
        let ghost psnap = pairs;
        self.buckets.push(BucketEntries { key, pairs });
        proof {
            let m2 = bm_append(old(self)@, key, p);
            assert(m2 == old(self)@.push((key, seq![p])));
            assert(self.buckets@ == old(self).buckets@.push(
                BucketEntries { key, pairs: psnap },
            ));
            assert forall|j: int| 0 <= j < m2.len() implies self@[j] == m2[j] by {
                if j < old(self)@.len() {
                    assert(self.buckets@[j] == old(self).buckets@[j]);
                } else {
                    assert(self.buckets@[j] == (BucketEntries { key, pairs: psnap }));
                }
            }
            assert(self@ =~= m2);
        }
    }
}

/// Looks up the ordered controls configured for an account.
fn find_account_controls<'a>(cfg: &'a Vec<AccountControls>, account_id: u64) -> (r: Option<
    &'a Vec<AccountVelocityControl>,
>)
    ensures
        match r {
            Some(cs) => cfg_lookup(cfg@, account_id) == Some(cs@),
            None => cfg_lookup(cfg@, account_id) is None,
        },
{
    let n = cfg.len();
    let mut i: usize = 0;
    proof {
        assert(cfg@.skip(0) =~= cfg@);
    }
    while i < n
        invariant
            n == cfg@.len(),
            0 <= i <= n,
            cfg_lookup(cfg@, account_id) == cfg_lookup(cfg@.skip(i as int), account_id),
        decreases n - i,
    {
        proof {
            assert(cfg@.skip(i as int)[0] == cfg@[i as int]);
            assert(cfg@.skip(i as int).drop_first() =~= cfg@.skip(i as int + 1));
        }
        if cfg[i].account.account_id == account_id {
            return Some(&cfg[i].controls);
        }
        i = i + 1;
    }
    proof {
        assert(cfg@.skip(n as int).len() == 0);
    }
    None
}

/// Evaluates one control for one entry, appending every (limit, entry)
/// pair whose window is enforceable.
fn check_control(
    acc: &mut BucketMap,
    ctx: &EvalContext,
    entry: &EntryValues,
    control: &AccountVelocityControl,
) -> (r: Result<(), VelocityError>)
    requires
        bm_wf(old(acc)@),
    ensures
        match r {
            Ok(()) => sel_control(old(acc)@, *ctx, *entry, *control) == Ok::<
                BucketsView,
                VelocityError,
            >(final(acc)@) && bm_wf(final(acc)@),
            Err(e) => sel_control(old(acc)@, *ctx, *entry, *control) == Err::<
                BucketsView,
                VelocityError,
            >(e),
        },
{
    let ectx = ctx.context_for_entry(entry);
    let enforce = match control.needs_enforcement(&ectx) {
        Ok(b) => b,
        Err(e) => {
            return Err(e);
        },
    };
    if !enforce {
        return Ok(());
    }
    let n = control.velocity_limits.len();
    let mut i: usize = 0;
    proof {
        assert(control.velocity_limits@.skip(0) =~= control.velocity_limits@);
    }
    while i < n
        invariant
            n == control.velocity_limits@.len(),
            0 <= i <= n,
            bm_wf(acc@),
            spec_needs_enforcement(control.condition, spec_context_for_entry(*ctx, *entry))
                == Ok::<bool, VelocityError>(true),
            ectx == spec_context_for_entry(*ctx, *entry),
            sel_limits(
                old(acc)@,
                *ctx,
                *entry,
                control.control_id,
                control.velocity_limits@,
            ) == sel_limits(
                acc@,
                *ctx,
                *entry,
                control.control_id,
                control.velocity_limits@.skip(i as int),
            ),
        decreases n - i,
    {
        proof {
            assert(control.velocity_limits@.skip(i as int)[0]
                == control.velocity_limits@[i as int]);
            assert(control.velocity_limits@.skip(i as int).drop_first() =~= control
                .velocity_limits@.skip(i as int + 1));
        }
        let limit = control.velocity_limits[i];
        match limit.window_for_enforcement(&ectx, entry) {
            Err(e) => {
                return Err(e);
            },
            Ok(None) => {},
            Ok(Some(window)) => {
                let key = VelocityBalanceKey {
                    window,
                    currency: entry.currency,
                    journal_id: entry.journal_id,
                    account_id: entry.account_id,
                    control_id: control.control_id,
                    limit_id: limit.limit_id,
                };
                proof {
                    assert(key == spec_bucket_key(window, *entry, control.control_id,
                        limit.limit_id));
                }
                acc.append(key, BucketEntry { limit, entry: *entry });
            },
        }
        i = i + 1;
    }
    proof {
        assert(control.velocity_limits@.skip(n as int).len() == 0);
    }
    Ok(())
}

/// Evaluates every control attached to one entry's account.
fn check_entry(
    acc: &mut BucketMap,
    ctx: &EvalContext,
    entry: &EntryValues,
    cfg: &Vec<AccountControls>,
) -> (r: Result<(), VelocityError>)
    requires
        bm_wf(old(acc)@),
    ensures
        match r {
            Ok(()) => sel_entry(old(acc)@, *ctx, *entry, cfg@) == Ok::<
                BucketsView,
                VelocityError,
            >(final(acc)@) && bm_wf(final(acc)@),
            Err(e) => sel_entry(old(acc)@, *ctx, *entry, cfg@) == Err::<
                BucketsView,
                VelocityError,
            >(e),
        },
{
    let controls = match find_account_controls(cfg, entry.account_id) {
        None => {
            return Ok(());
        },
        Some(cs) => cs,
    };
    let n = controls.len();
    let mut i: usize = 0;
    proof {
        assert(controls@.skip(0) =~= controls@);
    }
    while i < n
        invariant
            n == controls@.len(),
            0 <= i <= n,
            bm_wf(acc@),
            cfg_lookup(cfg@, entry.account_id) == Some(controls@),
            sel_controls(old(acc)@, *ctx, *entry, controls@) == sel_controls(
                acc@,
                *ctx,
                *entry,
                controls@.skip(i as int),
            ),
        decreases n - i,
    {
        proof {
            assert(controls@.skip(i as int)[0] == controls@[i as int]);
            assert(controls@.skip(i as int).drop_first() =~= controls@.skip(i as int + 1));
        }
        match check_control(acc, ctx, entry, &controls[i]) {
            Err(e) => {
                return Err(e);
            },
            Ok(()) => {},
        }
        i = i + 1;
    }
    proof {
        assert(controls@.skip(n as int).len() == 0);
    }
    Ok(())
}

/// Scans the ordered entry batch and groups every enforceable (limit,
/// entry) pair into its window bucket. An empty result means no entry
/// touches a velocity-controlled account and the caller short-circuits
/// before any balance access.
pub fn balances_to_check(
    context: &EvalContext,
    entries: &Vec<EntryValues>,
    controls: &Vec<AccountControls>,
) -> (r: Result<BucketMap, VelocityError>)
    ensures
        match r {
            Ok(m) => spec_select(*context, entries@, controls@) == Ok::<
                BucketsView,
                VelocityError,
            >(m@) && bm_wf(m@),
            Err(e) => spec_select(*context, entries@, controls@) == Err::<
                BucketsView,
                VelocityError,
            >(e),
        },
{
    let mut acc = BucketMap::new();
    proof {
        assert(acc@ =~= Seq::<(VelocityBalanceKey, Seq<BucketEntry>)>::empty());
    }
    let n = entries.len();
    let mut i: usize = 0;
    proof {
        assert(entries@.skip(0) =~= entries@);
    }
    while i < n
        invariant
            n == entries@.len(),
            0 <= i <= n,
            bm_wf(acc@),
            sel_entries(Seq::empty(), *context, entries@, controls@) == sel_entries(
                acc@,
                *context,
                entries@.skip(i as int),
                controls@,
            ),
        decreases n - i,
    {
        proof {
            assert(entries@.skip(i as int)[0] == entries@[i as int]);
            assert(entries@.skip(i as int).drop_first() =~= entries@.skip(i as int + 1));
        }
        match check_entry(&mut acc, context, &entries[i], controls) {
            Err(e) => {
                return Err(e);
            },
            Ok(()) => {},
        }
        i = i + 1;
    }
    proof {
        assert(entries@.skip(n as int).len() == 0);
    }
    Ok(acc)
}

} // verus!
