use vstd::prelude::*;

verus! {

/// The abstract duration ledger: bucket labels with the milliseconds
/// credited to each, in insertion order.
pub type LedgerModel = Seq<(Seq<char>, int)>;

/// The position of the first entry with the given label, or `-1` when no
/// entry carries it.
pub open spec fn find_bucket(l: LedgerModel, k: Seq<char>) -> int
    decreases l.len(),
{
    if l.len() == 0 {
        -1
    } else if l.first().0 == k {
        0
    } else {
        let r = find_bucket(l.drop_first(), k);
        if r < 0 {
            -1
        } else {
            r + 1
        }
    }
}

/// True when some entry carries the given label.
pub open spec fn has_bucket(l: LedgerModel, k: Seq<char>) -> bool {
    find_bucket(l, k) >= 0
}

/// The time credited to the given label; zero when no entry carries it.
pub open spec fn total_of(l: LedgerModel, k: Seq<char>) -> int {
    if has_bucket(l, k) {
        l[find_bucket(l, k)].1
    } else {
        0
    }
}

/// The ledger after crediting `a` to the bucket `k`: an existing entry
/// grows by `a`, a missing one is appended, and a credit of nothing leaves
/// the ledger unchanged.
pub open spec fn credit(l: LedgerModel, k: Seq<char>, a: int) -> LedgerModel {
    if a <= 0 {
        l
    } else if has_bucket(l, k) {
        l.update(find_bucket(l, k), (k, l[find_bucket(l, k)].1 + a))
    } else {
        l.push((k, a))
    }
}

/// The sum of all credited durations.
pub open spec fn ledger_sum(l: LedgerModel) -> int
    decreases l.len(),
{
    if l.len() == 0 {
        0
    } else {
        l.first().1 + ledger_sum(l.drop_first())
    }
}

/// No two entries carry the same label.
pub open spec fn unique_keys(l: LedgerModel) -> bool {
    forall|i: int, j: int| 0 <= i < j < l.len() ==> l[i].0 != l[j].0
}

/// Every entry holds a strictly positive credit.
pub open spec fn positive_totals(l: LedgerModel) -> bool {
    forall|i: int| 0 <= i < l.len() ==> l[i].1 > 0
}

pub proof fn lemma_find_bucket_props(l: LedgerModel, k: Seq<char>)
    ensures
        -1 <= find_bucket(l, k) < l.len(),
        find_bucket(l, k) >= 0 ==> l[find_bucket(l, k)].0 == k,
        forall|j: int| 0 <= j < find_bucket(l, k) ==> l[j].0 != k,
        find_bucket(l, k) == -1 ==> forall|j: int| 0 <= j < l.len() ==> l[j].0 != k,
    decreases l.len(),
{
    if l.len() == 0 {
    } else if l.first().0 == k {
    } else {
        lemma_find_bucket_props(l.drop_first(), k);
        assert(forall|j: int| 0 <= j < l.drop_first().len() ==> l.drop_first()[j] == l[j + 1]);
        assert forall|j: int| 0 <= j < find_bucket(l, k) implies l[j].0 != k by {
            if j > 0 {
                assert(l.drop_first()[j - 1] == l[j]);
            }
        }
        if find_bucket(l, k) == -1 {
            assert forall|j: int| 0 <= j < l.len() implies l[j].0 != k by {
                if j > 0 {
                    assert(l.drop_first()[j - 1] == l[j]);
                }
            }
        }
    }
}

pub proof fn lemma_find_bucket_at(l: LedgerModel, k: Seq<char>, i: int)
    requires
        0 <= i < l.len(),
        l[i].0 == k,
        forall|j: int| 0 <= j < i ==> l[j].0 != k,
    ensures
        find_bucket(l, k) == i,
    decreases l.len(),
{
    if i == 0 {
    } else {
        assert(l.first().0 != k);
        lemma_find_bucket_at(l.drop_first(), k, i - 1);
    }
}

pub proof fn lemma_ledger_sum_update(l: LedgerModel, i: int, e: (Seq<char>, int))
    requires
        0 <= i < l.len(),
    ensures
        ledger_sum(l.update(i, e)) == ledger_sum(l) - l[i].1 + e.1,
    decreases l.len(),
{
    if i == 0 {
        assert(l.update(0, e).drop_first() =~= l.drop_first());
    } else {
        assert(l.update(i, e).drop_first() =~= l.drop_first().update(i - 1, e));
        lemma_ledger_sum_update(l.drop_first(), i - 1, e);
    }
}

pub proof fn lemma_ledger_sum_push(l: LedgerModel, e: (Seq<char>, int))
    ensures
        ledger_sum(l.push(e)) == ledger_sum(l) + e.1,
    decreases l.len(),
{
    if l.len() == 0 {
        assert(l.push(e).first() == e);
        assert(l.push(e).drop_first() =~= Seq::<(Seq<char>, int)>::empty());
        assert(ledger_sum(Seq::<(Seq<char>, int)>::empty()) == 0);
        assert(ledger_sum(l) == 0);
        assert(l.push(e).len() == 1);
    } else {
        assert(l.push(e).drop_first() =~= l.drop_first().push(e));
        lemma_ledger_sum_push(l.drop_first(), e);
    }
}

/// Crediting grows the ledger sum by exactly the credited amount.
pub proof fn lemma_ledger_sum_credit(l: LedgerModel, k: Seq<char>, a: int)
    ensures
        ledger_sum(credit(l, k, a)) == ledger_sum(l) + (if a <= 0 {
            0
        } else {
            a
        }),
{
    if a <= 0 {
    } else {
        lemma_find_bucket_props(l, k);
        if has_bucket(l, k) {
            lemma_ledger_sum_update(l, find_bucket(l, k), (k, l[find_bucket(l, k)].1 + a));
        } else {
            lemma_ledger_sum_push(l, (k, a));
        }
    }
}

/// Every entry of a ledger with non-negative credits is at most the sum.
pub proof fn lemma_entry_le_sum(l: LedgerModel, i: int)
    requires
        0 <= i < l.len(),
        forall|j: int| 0 <= j < l.len() ==> l[j].1 >= 0,
    ensures
        l[i].1 <= ledger_sum(l),
    decreases l.len(),
{
    assert(forall|j: int| 0 <= j < l.drop_first().len() ==> l.drop_first()[j] == l[j + 1]);
    if i == 0 {
        lemma_ledger_sum_nonneg(l.drop_first());
    } else {
        lemma_entry_le_sum(l.drop_first(), i - 1);
        assert(l.first().1 >= 0);
    }
}

pub proof fn lemma_ledger_sum_nonneg(l: LedgerModel)
    requires
        forall|j: int| 0 <= j < l.len() ==> l[j].1 >= 0,
    ensures
        ledger_sum(l) >= 0,
    decreases l.len(),
{
    if l.len() > 0 {
        assert(forall|j: int| 0 <= j < l.drop_first().len() ==> l.drop_first()[j] == l[j + 1]);
        lemma_ledger_sum_nonneg(l.drop_first());
    }
}

/// Crediting keeps labels unique and credits positive.
pub proof fn lemma_credit_preserves_shape(l: LedgerModel, k: Seq<char>, a: int)
    requires
        unique_keys(l),
        positive_totals(l),
    ensures
        unique_keys(credit(l, k, a)),
        positive_totals(credit(l, k, a)),
{
    if a <= 0 {
    } else {
        lemma_find_bucket_props(l, k);
        if has_bucket(l, k) {
            let i = find_bucket(l, k);
            let c = credit(l, k, a);
            assert(forall|j: int| 0 <= j < c.len() ==> c[j].0 == l[j].0);
        } else {
            let c = credit(l, k, a);
            assert(forall|j: int| 0 <= j < l.len() ==> c[j] == l[j]);
        }
    }
}

/// Crediting one bucket grows exactly that bucket's total, and no other.
pub proof fn lemma_total_of_credit(l: LedgerModel, k: Seq<char>, a: int, k2: Seq<char>)
    requires
        unique_keys(l),
    ensures
        total_of(credit(l, k, a), k2) == total_of(l, k2) + (if k2 == k && a > 0 {
            a
        } else {
            0
        }),
{
    lemma_find_bucket_props(l, k);
    lemma_find_bucket_props(l, k2);
    if a <= 0 {
    } else if has_bucket(l, k) {
        let i = find_bucket(l, k);
        let c = l.update(i, (k, l[i].1 + a));
        assert(forall|j: int| 0 <= j < c.len() && j != i ==> c[j] == l[j]);
        if k2 == k {
            lemma_find_bucket_at(c, k2, i);
        } else {
            if has_bucket(l, k2) {
                let i2 = find_bucket(l, k2);
                assert(i2 != i);
                lemma_find_bucket_at(c, k2, i2);
            } else {
                assert(forall|j: int| 0 <= j < c.len() ==> c[j].0 != k2);
                lemma_find_bucket_props(c, k2);
            }
        }
    } else {
        let c = l.push((k, a));
        assert(forall|j: int| 0 <= j < l.len() ==> c[j] == l[j]);
        if k2 == k {
            lemma_find_bucket_at(c, k2, l.len() as int);
        } else {
            if has_bucket(l, k2) {
                lemma_find_bucket_at(c, k2, find_bucket(l, k2));
            } else {
                assert(forall|j: int| 0 <= j < c.len() ==> c[j].0 != k2);
                lemma_find_bucket_props(c, k2);
            }
        }
    }
}

/// One ledger line: a bucket label and the milliseconds credited to it.
pub struct Entry {
    pub label: String,
    pub total_ms: u64,
}

impl View for Entry {
    type V = (Seq<char>, int);

    open spec fn view(&self) -> (Seq<char>, int) {
        (self.label@, self.total_ms as int)
    }
}

/// The abstract ledger that a vector of entries stands for.
pub open spec fn ledger_view(entries: Seq<Entry>) -> LedgerModel {
    entries.map_values(|e: Entry| e@)
}

/// Adds `amount_ms` to the entry for `label`, appending a new entry when
/// none carries that label yet; a credit of nothing changes nothing.
#[verifier::loop_isolation(false)]
pub(crate) fn credit_entries(entries: &mut Vec<Entry>, label: String, amount_ms: u64)
    requires
        positive_totals(ledger_view(old(entries)@)),
        ledger_sum(ledger_view(old(entries)@)) + amount_ms <= u64::MAX,
    ensures
        ledger_view(final(entries)@) == credit(ledger_view(old(entries)@), label@, amount_ms as int),
{
    let ghost l0 = ledger_view(entries@);
    if amount_ms == 0 {
        return ;
    }
    let n = entries.len();
    let mut i: usize = 0;
    while i < n
        invariant
            entries@ == old(entries)@,
            0 <= i <= n,
            forall|j: int| 0 <= j < i ==> l0[j].0 != label@,
        decreases n - i,
    {
        if entries[i].label == label {
            proof {
                assert(l0[i as int].0 == label@);
                lemma_find_bucket_at(l0, label@, i as int);
                assert(forall|j: int| 0 <= j < l0.len() ==> l0[j].1 >= 0);
                lemma_entry_le_sum(l0, i as int);
            }
            let t = entries[i].total_ms;
            entries[i].total_ms = t + amount_ms;
            proof {
                assert(ledger_view(entries@) =~= credit(l0, label@, amount_ms as int));
            }
            return ;
        }
        i += 1;
    }
    proof {
        lemma_find_bucket_props(l0, label@);
        if has_bucket(l0, label@) {
            assert(l0[find_bucket(l0, label@)].0 == label@);
            assert(false);
        }
    }
    entries.push(Entry { label, total_ms: amount_ms });
    proof {
        assert(ledger_view(entries@) =~= credit(l0, label@, amount_ms as int));
    }
}

} // verus!
