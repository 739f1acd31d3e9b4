//! The velocity-enforcement orchestrator: one call per ledger operation.
//!
//! Given the operation timestamp, the transaction, the ordered entry batch
//! and the resolved controls per account, it selects the touched buckets,
//! fetches their current snapshots (in the backing store this takes the
//! exclusive row locks that serialize concurrent operations on a bucket),
//! folds and enforces, and persists every produced version — all inside the
//! caller's single atomic operation. Any fault leaves the store exactly as
//! it was: partial bucket updates never commit.

use vstd::prelude::*;

use crate::account_control::AccountControls;
use crate::context::EvalContext;
use crate::primitives::{
    BalanceSnapshot, EntryValues, TransactionValues, VelocityBalanceKey, VelocityError,
};
use crate::selector::{balances_to_check, bm_has_key, spec_select, BucketMap, BucketsView};
use crate::snapshot::{
    bucket_fits, cb_has, cb_value, nb_view, new_snapshots, spec_new_snapshots, CurrentBalance,
    NewBalancesView,
};
use crate::store::{apply_news, current_of, SnapshotStore};

verus! {

/// The shared evaluation context a transaction yields.
pub open spec fn spec_eval_context(tx: TransactionValues) -> EvalContext {
    EvalContext {
        transaction_id: tx.transaction_id,
        journal_id: tx.journal_id,
        tx_kind: tx.tx_kind,
    }
}

/// The current snapshots a store answers for the selected buckets, listed
/// per bucket. The fetch itself requests the keys in the deterministic
/// locking order; the fold's outcome is the same either way.
pub open spec fn spec_currents(
    m: Map<VelocityBalanceKey, Seq<BalanceSnapshot>>,
    buckets: BucketsView,
) -> Seq<CurrentBalance> {
    Seq::new(
        buckets.len(),
        |i: int| CurrentBalance { key: buckets[i].0, current: current_of(m, buckets[i].0) },
    )
}

/// The whole check as one mathematical step: the selection of buckets, the
/// per-bucket enforced fold against the store's current snapshots, and the
/// append of every produced version. An error leaves the store untouched.
pub open spec fn spec_outcome(
    m: Map<VelocityBalanceKey, Seq<BalanceSnapshot>>,
    time: u64,
    tx: TransactionValues,
    entries: Seq<EntryValues>,
    cfg: Seq<AccountControls>,
) -> Result<Map<VelocityBalanceKey, Seq<BalanceSnapshot>>, VelocityError> {
    match spec_select(spec_eval_context(tx), entries, cfg) {
        Err(e) => Err(e),
        Ok(buckets) => match spec_new_snapshots(time, spec_currents(m, buckets), buckets) {
            Err(e) => Err(e),
            Ok(news) => Ok(apply_news(m, news)),
        },
    }
}

/// The machine-width bound forced by `u64` totals and versions: each
/// selected bucket's fold stays representable from its current snapshot.
pub open spec fn outcome_fits(
    m: Map<VelocityBalanceKey, Seq<BalanceSnapshot>>,
    tx: TransactionValues,
    entries: Seq<EntryValues>,
    cfg: Seq<AccountControls>,
) -> bool {
    match spec_select(spec_eval_context(tx), entries, cfg) {
        Err(_) => true,
        Ok(buckets) => forall|i: int|
            0 <= i < buckets.len() ==> bucket_fits(
                current_of(m, (#[trigger] buckets[i]).0),
                buckets[i].1,
            ),
    }
}

/// In a list whose every entry answers the store's current snapshot for its
/// own key, looking any present key up answers that key's current snapshot.
proof fn lemma_cb_value_lookup(
    cb: Seq<CurrentBalance>,
    m: Map<VelocityBalanceKey, Seq<BalanceSnapshot>>,
    key: VelocityBalanceKey,
)
    requires
        exists|i: int| 0 <= i < cb.len() && (#[trigger] cb[i]).key == key,
        forall|i: int| 0 <= i < cb.len() ==> (#[trigger] cb[i]).current == current_of(
            m,
            cb[i].key,
        ),
    ensures
        cb_has(cb, key),
        cb_value(cb, key) == current_of(m, key),
    decreases cb.len(),
{
    if cb[0].key != key {
        let w = choose|i: int| 0 <= i < cb.len() && (#[trigger] cb[i]).key == key;
        assert(cb.drop_first()[w - 1] == cb[w]);
        assert forall|i: int|
            0 <= i < cb.drop_first().len() implies (#[trigger] cb.drop_first()[i]).current
            == current_of(m, cb.drop_first()[i].key) by {
            assert(cb.drop_first()[i] == cb[i + 1]);
        }
        lemma_cb_value_lookup(cb.drop_first(), m, key);
    }
}

/// A deterministic total order over bucket keys: lexicographic over the six
/// key fields. Locks are always requested in this order, whatever order the
/// batch discovered its buckets in, so two operations can never wait on each
/// other's buckets in opposite orders.
pub open spec fn key_le(a: VelocityBalanceKey, b: VelocityBalanceKey) -> bool {
    if a.window != b.window {
        a.window < b.window
    } else if a.currency != b.currency {
        a.currency < b.currency
    } else if a.journal_id != b.journal_id {
        a.journal_id < b.journal_id
    } else if a.account_id != b.account_id {
        a.account_id < b.account_id
    } else if a.control_id != b.control_id {
        a.control_id < b.control_id
    } else {
        a.limit_id <= b.limit_id
    }
}

/// Keys stand in the deterministic locking order.
pub open spec fn keys_sorted(s: Seq<VelocityBalanceKey>) -> bool {
    forall|i: int, j: int| 0 <= i < j < s.len() ==> key_le(s[i], s[j])
}

/// Compares two bucket keys in the deterministic locking order.
fn key_le_exec(a: &VelocityBalanceKey, b: &VelocityBalanceKey) -> (r: bool)
    ensures
        r == key_le(*a, *b),
{
    if a.window != b.window {
        a.window < b.window
    } else if a.currency != b.currency {
        a.currency < b.currency
    } else if a.journal_id != b.journal_id {
        a.journal_id < b.journal_id
    } else if a.account_id != b.account_id {
        a.account_id < b.account_id
    } else if a.control_id != b.control_id {
        a.control_id < b.control_id
    } else {
        a.limit_id <= b.limit_id
    }
}

/// Inserts a key at its place in a sorted key list.
fn sorted_insert(out: &mut Vec<VelocityBalanceKey>, key: VelocityBalanceKey)
    requires
        keys_sorted(old(out)@),
    ensures
        keys_sorted(final(out)@),
        final(out)@.len() == old(out)@.len() + 1,
        forall|k: VelocityBalanceKey| final(out)@.contains(k) <==> (old(out)@.contains(k) || k
            == key),
{
    let n = out.len();
    let mut pos: usize = 0;
    while pos < n && key_le_exec(&out[pos], &key)
        invariant
            n == out@.len(),
            0 <= pos <= n,
            *out == *old(out),
            keys_sorted(out@),
            forall|j: int| 0 <= j < pos ==> key_le((#[trigger] out@[j]), key),
        decreases n - pos,
    {
        pos = pos + 1;
    }
    let ghost before = out@;
    let ghost p = pos as int;
    out.insert(pos, key);
    proof {
        assert(out@ == before.insert(p, key));
        assert forall|i: int, j: int| 0 <= i < j < out@.len() implies key_le(out@[i], out@[j]) by {
            if j < p {
                assert(out@[i] == before[i] && out@[j] == before[j]);
            } else if i < p && j == p {
                assert(out@[i] == before[i]);
            } else if i < p && j > p {
                assert(out@[i] == before[i] && out@[j] == before[j - 1]);
                assert(key_le(before[i], before[j - 1]));
            } else if i == p && j > p {
                assert(out@[j] == before[j - 1]);
                assert(p < n);
                assert(!key_le(before[p], key));
                assert(key_le(key, before[p]));
                if j - 1 > p {
                    assert(key_le(before[p], before[j - 1]));
                }
                assert(key_le(key, before[j - 1]));
            } else {
                assert(out@[i] == before[i - 1] && out@[j] == before[j - 1]);
            }
        }
        assert(out@[p] == key);
        assert(out@.contains(key));
        assert forall|k: VelocityBalanceKey| before.contains(k) implies out@.contains(k) by {
            let w = choose|w: int| 0 <= w < before.len() && before[w] == k;
            if w < p {
                assert(out@[w] == k);
            } else {
                assert(out@[w + 1] == k);
            }
        }
        assert forall|k: VelocityBalanceKey|
            out@.contains(k) && k != key implies before.contains(k) by {
            let w = choose|w: int| 0 <= w < out@.len() && out@[w] == k;
            if w < p {
                assert(before[w] == k);
            } else {
                assert(w != p);
                assert(before[w - 1] == k);
            }
        }
    }
}

/// The deterministic locking order of a grouped selection: exactly its
/// bucket keys, sorted. All locks for one operation are requested as one
/// batch in this order, never one at a time in discovery order.
pub fn locking_order(m: &BucketMap) -> (r: Vec<VelocityBalanceKey>)
    ensures
        keys_sorted(r@),
        forall|k: VelocityBalanceKey| r@.contains(k) <==> bm_has_key(m@, k),
{
    let n = m.buckets.len();
    let mut out: Vec<VelocityBalanceKey> = Vec::new();
    let mut i: usize = 0;
    while i < n
        invariant
            n == m.buckets@.len(),
            n == m@.len(),
            0 <= i <= n,
            keys_sorted(out@),
            forall|k: VelocityBalanceKey| out@.contains(k) <==> exists|j: int|
                0 <= j < i && (#[trigger] m@[j]).0 == k,
        decreases n - i,
    {
        sorted_insert(&mut out, m.buckets[i].key);
        proof {
            assert(m@[i as int].0 == m.buckets@[i as int].key);
        }
        i = i + 1;
    }
    out
}

/// The velocity subsystem: enforcement over its own append-only snapshot
/// store.
pub struct VelocityBalances {
    store: SnapshotStore,
}

impl View for VelocityBalances {
    type V = Map<VelocityBalanceKey, Seq<BalanceSnapshot>>;

    closed spec fn view(&self) -> Map<VelocityBalanceKey, Seq<BalanceSnapshot>> {
        self.store@
    }
}

impl VelocityBalances {
    /// One row per bucket key in the backing store.
    pub closed spec fn wf(self) -> bool {
        self.store.wf()
    }

    /// A velocity subsystem over an empty store: no bucket ever seeded.
    pub fn new() -> (r: VelocityBalances)
        ensures
            r@ == Map::<VelocityBalanceKey, Seq<BalanceSnapshot>>::empty(),
            r.wf(),
    {
        VelocityBalances { store: SnapshotStore::new() }
    }

    /// Reads a bucket's current balance: its latest stored version.
    pub fn find_current(&self, key: &VelocityBalanceKey) -> (r: Option<BalanceSnapshot>)
        requires
            self.wf(),
        ensures
            r == current_of(self@, *key),
    {
        self.store.find_current(key)
    }

    /// Every stored version of one bucket, oldest first: the audit trail of
    /// all folds that ever committed on it.
    pub fn find_all_versions(&self, key: &VelocityBalanceKey) -> (r: Vec<BalanceSnapshot>)
        requires
            self.wf(),
        ensures
            r@ == crate::store::stored_versions(self@, *key),
    {
        self.store.find_all_versions(key)
    }

    /// Runs the whole velocity check for one ledger operation. A batch that
    /// touches no velocity-controlled account is a no-op: nothing is fetched
    /// and nothing is written. Otherwise the current snapshot of every
    /// selected bucket is fetched once, each bucket is folded and enforced
    /// in entry order, and on success every produced version is appended.
    /// On any fault — a condition that cannot be evaluated or a breached
    /// limit — the error is returned and the store is left unchanged, as the
    /// enclosing transaction's rollback demands.
    pub fn update_balances_in_op(
        &mut self,
        created_at: u64,
        transaction: &TransactionValues,
        entries: &Vec<EntryValues>,
        controls: &Vec<AccountControls>,
    ) -> (r: Result<(), VelocityError>)
        requires
            old(self).wf(),
            outcome_fits(old(self)@, *transaction, entries@, controls@),
        ensures
            final(self).wf(),
            match spec_outcome(old(self)@, created_at, *transaction, entries@, controls@) {
                Ok(m2) => r == Ok::<(), VelocityError>(()) && final(self)@ == m2,
                Err(e) => r == Err::<(), VelocityError>(e) && final(self)@ == old(self)@,
            },
    {
        let context = EvalContext::new(transaction);
        proof {
            assert(context == spec_eval_context(*transaction));
        }
        let entries_to_enforce = match balances_to_check(&context, entries, controls) {
            Ok(m) => m,
            Err(e) => {
                return Err(e);
            },
        };
        let ghost buckets = entries_to_enforce@;
        if entries_to_enforce.is_empty() {
            proof {
                assert(spec_new_snapshots(created_at, spec_currents(old(self)@, buckets), buckets)
                    == Ok::<NewBalancesView, VelocityError>(Seq::empty()));
                assert(apply_news(old(self)@, Seq::empty()) == old(self)@);
            }
            return Ok(());
        }
        let keys = locking_order(&entries_to_enforce);
        let current_balances = self.store.find_for_update(&keys);
        proof {
            let ghost m0 = old(self)@;
            let ghost speccb = spec_currents(m0, buckets);
            assert forall|i: int|
                0 <= i < current_balances@.len() implies (#[trigger] current_balances@[i]).current
                == current_of(m0, current_balances@[i].key) by {
                assert(current_balances@[i].key == keys@[i]);
            }
            assert forall|i: int| 0 <= i < buckets.len() implies cb_has(
                current_balances@,
                (#[trigger] buckets[i]).0,
            ) && cb_value(current_balances@, buckets[i].0) == current_of(m0, buckets[i].0)
                && cb_value(speccb, buckets[i].0) == current_of(m0, buckets[i].0) by {
                assert(bm_has_key(buckets, buckets[i].0));
                assert(keys@.contains(buckets[i].0));
                let w = choose|w: int| 0 <= w < keys@.len() && keys@[w] == buckets[i].0;
                assert(current_balances@[w].key == buckets[i].0);
                lemma_cb_value_lookup(current_balances@, m0, buckets[i].0);
                assert(speccb[i].key == buckets[i].0);
                lemma_cb_value_lookup(speccb, m0, buckets[i].0);
            }
            crate::laws::lemma_deterministic_fold(created_at, current_balances@, speccb, buckets);
        }
        let news = match new_snapshots(context, created_at, &current_balances, &entries_to_enforce)
            {
            Ok(v) => v,
            Err(e) => {
                return Err(e);
            },
        };
        let ghost newsview = nb_view(news@);
        self.store.insert_new_snapshots(news);
        proof {
            assert(final(self)@ == apply_news(old(self)@, newsview));
        }
        Ok(())
    }
}

} // verus!
