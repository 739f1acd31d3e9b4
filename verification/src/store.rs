//! Balance store: the append-only snapshot rows owned by the velocity
//! subsystem, keyed by bucket. Fetching answers, for every requested key,
//! either the bucket's current (latest) snapshot or its explicit absence;
//! persisting appends every newly produced version and never mutates or
//! deletes an existing one.

use vstd::prelude::*;

use crate::primitives::{BalanceSnapshot, VelocityBalanceKey};
use crate::snapshot::{nb_view, BucketSnapshots, CurrentBalance, NewBalancesView};

verus! {

/// The versions a store holds for a key; a never-seeded bucket holds none.
pub open spec fn stored_versions(
    m: Map<VelocityBalanceKey, Seq<BalanceSnapshot>>,
    key: VelocityBalanceKey,
) -> Seq<BalanceSnapshot> {
    if m.dom().contains(key) {
        m[key]
    } else {
        Seq::empty()
    }
}

/// A bucket's current balance: its latest version, if any.
pub open spec fn current_of(
    m: Map<VelocityBalanceKey, Seq<BalanceSnapshot>>,
    key: VelocityBalanceKey,
) -> Option<BalanceSnapshot> {
    if stored_versions(m, key).len() > 0 {
        Some(stored_versions(m, key).last())
    } else {
        None
    }
}

/// Appends every produced version of every bucket, bucket by bucket:
/// existing versions are never changed, only extended.
pub open spec fn apply_news(
    m: Map<VelocityBalanceKey, Seq<BalanceSnapshot>>,
    news: NewBalancesView,
) -> Map<VelocityBalanceKey, Seq<BalanceSnapshot>>
    decreases news.len(),
{
    if news.len() == 0 {
        m
    } else {
        apply_news(
            m.insert(news[0].0, stored_versions(m, news[0].0) + news[0].1),
            news.drop_first(),
        )
    }
}

/// The mathematical content of a row list: key to stored versions.
pub open spec fn rows_as_map(rows: Seq<BucketSnapshots>) -> Map<
    VelocityBalanceKey,
    Seq<BalanceSnapshot>,
>
    decreases rows.len(),
{
    if rows.len() == 0 {
        Map::empty()
    } else {
        rows_as_map(rows.drop_last()).insert(rows.last().key, rows.last().versions@)
    }
}

/// Row keys are pairwise distinct: one row per bucket.
pub open spec fn rows_wf(rows: Seq<BucketSnapshots>) -> bool {
    forall|i: int, j: int| 0 <= i < j < rows.len() ==> rows[i].key != rows[j].key
}

proof fn lemma_rows_as_map_index(rows: Seq<BucketSnapshots>, i: int)
    requires
        rows_wf(rows),
        0 <= i < rows.len(),
    ensures
        rows_as_map(rows).dom().contains(rows[i].key),
        rows_as_map(rows)[rows[i].key] == rows[i].versions@,
    decreases rows.len(),
{
    if i < rows.len() - 1 {
        assert(rows.drop_last()[i] == rows[i]);
        lemma_rows_as_map_index(rows.drop_last(), i);
        assert(rows.last().key != rows[i].key);
    }
}

proof fn lemma_rows_as_map_absent(rows: Seq<BucketSnapshots>, key: VelocityBalanceKey)
    requires
        forall|i: int| 0 <= i < rows.len() ==> rows[i].key != key,
    ensures
        !rows_as_map(rows).dom().contains(key),
    decreases rows.len(),
{
    if rows.len() > 0 {
        assert forall|i: int| 0 <= i < rows.drop_last().len() implies rows.drop_last()[i].key
            != key by {
            assert(rows.drop_last()[i] == rows[i]);
        }
        lemma_rows_as_map_absent(rows.drop_last(), key);
    }
}

proof fn lemma_rows_as_map_update(rows: Seq<BucketSnapshots>, i: int, row: BucketSnapshots)
    requires
        rows_wf(rows),
        0 <= i < rows.len(),
        row.key == rows[i].key,
    ensures
        rows_as_map(rows.update(i, row)) =~= rows_as_map(rows).insert(row.key, row.versions@),
        rows_wf(rows.update(i, row)),
    decreases rows.len(),
{
    let rs2 = rows.update(i, row);
    assert forall|a: int, b: int| 0 <= a < b < rs2.len() implies rs2[a].key != rs2[b].key by {
        assert(rs2[a].key == if a == i { row.key } else { rows[a].key });
        assert(rs2[b].key == if b == i { row.key } else { rows[b].key });
    }
    if i == rows.len() - 1 {
        assert(rs2.drop_last() =~= rows.drop_last());
        assert(rs2.last() == row);
    } else {
        assert(rs2.drop_last() =~= rows.drop_last().update(i, row));
        assert(rs2.last() == rows.last());
        assert(rows.drop_last()[i] == rows[i]);
        lemma_rows_as_map_update(rows.drop_last(), i, row);
        assert(rows.last().key != row.key);
    }
}

/// The row holding a key, if one was ever seeded: first match.
fn find_row_index(rows: &Vec<BucketSnapshots>, key: &VelocityBalanceKey) -> (r: Option<usize>)
    ensures
        match r {
            Some(i) => 0 <= i < rows@.len() && rows@[i as int].key == *key,
            None => forall|j: int| 0 <= j < rows@.len() ==> rows@[j].key != *key,
        },
{
    let n = rows.len();
    let mut i: usize = 0;
    while i < n
        invariant
            n == rows@.len(),
            0 <= i <= n,
            forall|j: int| 0 <= j < i ==> rows@[j].key != *key,
        decreases n - i,
    {
        if rows[i].key == *key {
            return Some(i);
        }
        i = i + 1;
    }
    None
}

/// The append-only snapshot rows for every bucket the subsystem ever
/// seeded. One row per bucket key, holding its ordered versions.
pub struct SnapshotStore {
    rows: Vec<BucketSnapshots>,
}

impl View for SnapshotStore {
    type V = Map<VelocityBalanceKey, Seq<BalanceSnapshot>>;

    closed spec fn view(&self) -> Map<VelocityBalanceKey, Seq<BalanceSnapshot>> {
        rows_as_map(self.rows@)
    }
}

impl SnapshotStore {
    /// One row per bucket key.
    pub closed spec fn wf(self) -> bool {
        rows_wf(self.rows@)
    }

    /// An empty store: no bucket was ever seeded.
    pub fn new() -> (r: SnapshotStore)
        ensures
            r@ == Map::<VelocityBalanceKey, Seq<BalanceSnapshot>>::empty(),
            r.wf(),
    {
        SnapshotStore { rows: Vec::new() }
    }

    /// The bucket's current (latest) snapshot, or its explicit absence.
    pub fn find_current(&self, key: &VelocityBalanceKey) -> (r: Option<BalanceSnapshot>)
        requires
            self.wf(),
        ensures
            r == current_of(self@, *key),
    {
        let n = self.rows.len();
        let mut i: usize = 0;
        while i < n
            invariant
                n == self.rows@.len(),
                0 <= i <= n,
                self.wf(),
                forall|j: int| 0 <= j < i ==> self.rows@[j].key != *key,
            decreases n - i,
        {
            if self.rows[i].key == *key {
                proof {
                    lemma_rows_as_map_index(self.rows@, i as int);
                }
                let m = self.rows[i].versions.len();
                if m == 0 {
                    return None;
                }
                return Some(self.rows[i].versions[m - 1]);
            }
            i = i + 1;
        }
        proof {
            lemma_rows_as_map_absent(self.rows@, *key);
        }
        None
    }

    /// Every stored version of one bucket, oldest first: the audit trail.
    pub fn find_all_versions(&self, key: &VelocityBalanceKey) -> (r: Vec<BalanceSnapshot>)
        requires
            self.wf(),
        ensures
            r@ == stored_versions(self@, *key),
    {
        match find_row_index(&self.rows, key) {
            Some(i) => {
                proof {
                    lemma_rows_as_map_index(self.rows@, i as int);
                }
                let row = &self.rows[i];
                let n = row.versions.len();
                let mut out: Vec<BalanceSnapshot> = Vec::new();
                let mut j: usize = 0;
                while j < n
                    invariant
                        n == row.versions@.len(),
                        0 <= j <= n,
                        out@ == row.versions@.take(j as int),
                    decreases n - j,
                {
                    out.push(row.versions[j]);
                    proof {
                        assert(out@ =~= row.versions@.take(j as int + 1));
                    }
                    j = j + 1;
                }
                proof {
                    assert(row.versions@.take(n as int) =~= row.versions@);
                }
                out
            },
            None => {
                proof {
                    lemma_rows_as_map_absent(self.rows@, *key);
                }
                Vec::new()
            },
        }
    }

    /// Fetches, inside the caller's operation, the current snapshot of every
    /// requested bucket key; absence of a row is a valid result meaning the
    /// bucket was never seeded. In the backing store this read takes the
    /// exclusive per-bucket row locks that serialize concurrent operations.
    pub fn find_for_update(&self, keys: &Vec<VelocityBalanceKey>) -> (r: Vec<CurrentBalance>)
        requires
            self.wf(),
        ensures
            r@.len() == keys@.len(),
            forall|i: int| 0 <= i < keys@.len() ==> (#[trigger] r@[i]) == (CurrentBalance {
                key: keys@[i],
                current: current_of(self@, keys@[i]),
            }),
    {
        let n = keys.len();
        let mut out: Vec<CurrentBalance> = Vec::new();
        let mut i: usize = 0;
        while i < n
            invariant
                n == keys@.len(),
                0 <= i <= n,
                self.wf(),
                out@.len() == i,
                forall|j: int| 0 <= j < i ==> (#[trigger] out@[j]) == (CurrentBalance {
                    key: keys@[j],
                    current: current_of(self@, keys@[j]),
                }),
            decreases n - i,
        {
            let current = self.find_current(&keys[i]);
            out.push(CurrentBalance { key: keys[i], current });
            i = i + 1;
        }
        out
    }

    /// Appends one bucket's newly produced versions to its row, seeding the
    /// row when the bucket never had one.
    fn append_versions(&mut self, key: VelocityBalanceKey, versions: Vec<BalanceSnapshot>)
        requires
            old(self).wf(),
        ensures
            final(self).wf(),
            final(self)@ =~= old(self)@.insert(
                key,
                stored_versions(old(self)@, key) + versions@,
            ),
    {
        let ghost vsnap = versions@;
        let mut incoming = versions;
        match find_row_index(&self.rows, &key) {
            Some(i) => {
                let mut row = self.rows.remove(i);
                let ghost oldrow = row;
                row.versions.append(&mut incoming);
                let ghost rsnap = row;
                self.rows.insert(i, row);
                proof {
                    assert(self.rows@ =~= old(self).rows@.update(i as int, rsnap));
                    assert(rsnap.key == key);
                    lemma_rows_as_map_index(old(self).rows@, i as int);
                    assert(stored_versions(old(self)@, key) == oldrow.versions@);
                    assert(rsnap.versions@ == oldrow.versions@ + vsnap);
                    lemma_rows_as_map_update(old(self).rows@, i as int, rsnap);
                }
            },
            None => {
                proof {
                    lemma_rows_as_map_absent(old(self).rows@, key);
                }
                self.rows.push(BucketSnapshots { key, versions: incoming });
                proof {
                    assert(self.rows@.drop_last() =~= old(self).rows@);
                    assert(self.rows@.last().key == key);
                    assert(self.rows@.last().versions@ == vsnap);
                    assert(stored_versions(old(self)@, key) + vsnap =~= vsnap);
                    assert forall|a: int, b: int| 0 <= a < b < self.rows@.len() implies self
                        .rows@[a].key != self.rows@[b].key by {
                        if b < self.rows@.len() - 1 {
                            assert(self.rows@[a] == old(self).rows@[a]);
                            assert(self.rows@[b] == old(self).rows@[b]);
                        } else {
                            assert(self.rows@[a] == old(self).rows@[a]);
                        }
                    }
                }
            },
        }
    }

    /// Persists every version produced for every bucket, in order, as new
    /// append-only rows; nothing already stored is changed.
    pub fn insert_new_snapshots(&mut self, new_balances: Vec<BucketSnapshots>)
        requires
            old(self).wf(),
        ensures
            final(self).wf(),
            final(self)@ == apply_news(old(self)@, nb_view(new_balances@)),
    {
        let ghost nbv = nb_view(new_balances@);
        // Consume the buckets front to back.
        let mut remaining = new_balances;
        while remaining.len() > 0
            invariant
                self.wf(),
                apply_news(old(self)@, nbv) == apply_news(self@, nb_view(remaining@)),
            decreases remaining@.len(),
        {
            let ghost before = remaining@;
            let row = remaining.remove(0);
            proof {
                assert(remaining@ =~= before.drop_first());
                assert(nb_view(before)[0] == (row.key, row.versions@));
                assert(nb_view(remaining@) =~= nb_view(before).drop_first());
            }
            let key = row.key;
            self.append_versions(key, row.versions);
        }
        proof {
            assert(nb_view(remaining@).len() == 0);
        }
    }
}

} // verus!
