use crate::breakdown::{
    add_entry, add_to, distinct_keys, entries_view, fits, has_key, lemma_add_entry_sum,
    lemma_sort_desc_facts, room_for, sort_desc, sort_entries, sorted_desc, sum_values,
};
use crate::category::Category;
use crate::date::Date;
use vstd::prelude::*;

verus! {

/// One dated expense; `value` is in minor currency units (cents).
#[derive(Debug)]
pub struct Transaction {
    pub value: i64,
    pub date: Date,
    pub category: Category,
    pub end_date: Date,
    pub payment_method: String,
    pub note: String,
}

/// The three things a bucket's amounts are broken down by.
pub enum Field {
    Category,
    PaymentMethod,
    Note,
}

pub open spec fn field_key(t: Transaction, f: Field) -> Seq<char> {
    match f {
        Field::Category => t.category@,
        Field::PaymentMethod => t.payment_method@,
        Field::Note => t.note@,
    }
}

pub open spec fn total_of(txs: Seq<Transaction>) -> int
    decreases txs.len(),
{
    if txs.len() == 0 {
        0
    } else {
        total_of(txs.drop_last()) + txs.last().value
    }
}

/// Sum of the magnitudes of the amounts.
pub open spec fn abs_total(txs: Seq<Transaction>) -> int
    decreases txs.len(),
{
    if txs.len() == 0 {
        0
    } else {
        abs_total(txs.drop_last()) + if txs.last().value < 0 {
            -txs.last().value
        } else {
            txs.last().value as int
        }
    }
}

/// Sum of the amounts whose `f` is `k`.
pub open spec fn subtotal_of(txs: Seq<Transaction>, f: Field, k: Seq<char>) -> int
    decreases txs.len(),
{
    if txs.len() == 0 {
        0
    } else {
        subtotal_of(txs.drop_last(), f, k) + if field_key(txs.last(), f) == k {
            txs.last().value as int
        } else {
            0
        }
    }
}

/// The distinct values of `f`, in order of first occurrence.
pub open spec fn keys_in_order(txs: Seq<Transaction>, f: Field) -> Seq<Seq<char>>
    decreases txs.len(),
{
    if txs.len() == 0 {
        seq![]
    } else {
        let p = keys_in_order(txs.drop_last(), f);
        if p.contains(field_key(txs.last(), f)) {
            p
        } else {
            p.push(field_key(txs.last(), f))
        }
    }
}

/// Each distinct value of `f` with its subtotal, in order of first occurrence.
pub open spec fn breakdown_of(txs: Seq<Transaction>, f: Field) -> Seq<(Seq<char>, int)> {
    keys_in_order(txs, f).map_values(|k: Seq<char>| (k, subtotal_of(txs, f, k)))
}

/// Running sums of one bucket.
pub struct TempStats {
    pub total: i64,
    pub by_category: Vec<(Category, i64)>,
    pub by_payment_method: Vec<(String, i64)>,
    pub by_note: Vec<(String, i64)>,
    pub transaction_count: u64,
    /// Days of the bucket's period, set when the bucket is finalised.
    pub period_days: i64,
}

/// Finished statistics of one bucket; each breakdown is in non-increasing
/// order of amount.
#[derive(Debug)]
pub struct Stats {
    pub total: i64,
    pub by_category: Vec<(Category, i64)>,
    pub by_payment_method: Vec<(String, i64)>,
    pub by_note: Vec<(String, i64)>,
    pub transaction_count: u64,
    /// Days the daily average is taken over.
    pub period_days: i64,
}

impl TempStats {
    pub open spec fn wf(&self) -> bool {
        &&& distinct_keys(entries_view(self.by_category@))
        &&& distinct_keys(entries_view(self.by_payment_method@))
        &&& distinct_keys(entries_view(self.by_note@))
    }

    /// The sums are those of `txs`.
    pub open spec fn folds(&self, txs: Seq<Transaction>) -> bool {
        &&& self.total == total_of(txs)
        &&& self.transaction_count == txs.len()
        &&& entries_view(self.by_category@) == breakdown_of(txs, Field::Category)
        &&& entries_view(self.by_payment_method@) == breakdown_of(txs, Field::PaymentMethod)
        &&& entries_view(self.by_note@) == breakdown_of(txs, Field::Note)
    }

    /// Adding `e` keeps every sum within `i64`.
    pub open spec fn has_room_for(&self, e: &Transaction) -> bool {
        &&& self.transaction_count < u64::MAX
        &&& fits(self.total + e.value)
        &&& room_for(entries_view(self.by_category@), e.category@, e.value as int)
        &&& room_for(entries_view(self.by_payment_method@), e.payment_method@, e.value as int)
        &&& room_for(entries_view(self.by_note@), e.note@, e.value as int)
    }

    /// An accumulator with nothing folded in.
    pub fn new() -> (r: TempStats)
        ensures
            r.folds(seq![]),
            r.wf(),
            r.period_days == 0,
    {
        let r = TempStats {
            total: 0,
            by_category: Vec::new(),
            by_payment_method: Vec::new(),
            by_note: Vec::new(),
            transaction_count: 0,
            period_days: 0,
        };
        proof {
            assert(entries_view(r.by_category@) =~= breakdown_of(seq![], Field::Category));
            assert(entries_view(r.by_payment_method@) =~= breakdown_of(seq![], Field::PaymentMethod));
            assert(entries_view(r.by_note@) =~= breakdown_of(seq![], Field::Note));
        }
        r
    }

    /// Folds one transaction into the sums.
    pub fn update(&mut self, e: &Transaction)
        requires
            old(self).wf(),
            old(self).has_room_for(e),
        ensures
            final(self).wf(),
            final(self).total == old(self).total + e.value,
            final(self).transaction_count == old(self).transaction_count + 1,
            final(self).period_days == old(self).period_days,
            entries_view(final(self).by_category@) == add_entry(
                entries_view(old(self).by_category@),
                e.category@,
                e.value as int,
            ),
            entries_view(final(self).by_payment_method@) == add_entry(
                entries_view(old(self).by_payment_method@),
                e.payment_method@,
                e.value as int,
            ),
            entries_view(final(self).by_note@) == add_entry(
                entries_view(old(self).by_note@),
                e.note@,
                e.value as int,
            ),
            forall|txs: Seq<Transaction>| #[trigger]
                old(self).folds(txs) ==> final(self).folds(txs.push(*e)),
            sum_values(entries_view(old(self).by_category@)) == old(self).total ==> sum_values(
                entries_view(final(self).by_category@),
            ) == final(self).total,
            sum_values(entries_view(old(self).by_payment_method@)) == old(self).total ==> sum_values(
                entries_view(final(self).by_payment_method@),
            ) == final(self).total,
            sum_values(entries_view(old(self).by_note@)) == old(self).total ==> sum_values(
                entries_view(final(self).by_note@),
            ) == final(self).total,
    {
        let value = e.value;
        self.total = self.total + value;
        add_to(&mut self.by_category, &e.category, value);
        add_to(&mut self.by_payment_method, &e.payment_method, value);
        add_to(&mut self.by_note, &e.note, value);
        self.transaction_count = self.transaction_count + 1;
        proof {
            lemma_add_entry_sum(entries_view(old(self).by_category@), e.category@, value as int);
            lemma_add_entry_sum(entries_view(old(self).by_payment_method@), e.payment_method@, value as int);
            lemma_add_entry_sum(entries_view(old(self).by_note@), e.note@, value as int);
            assert forall|txs: Seq<Transaction>| #[trigger]
                old(self).folds(txs) implies self.folds(txs.push(*e)) by {
                lemma_breakdown_push(txs, *e, Field::Category);
                lemma_breakdown_push(txs, *e, Field::PaymentMethod);
                lemma_breakdown_push(txs, *e, Field::Note);
                assert(txs.push(*e).drop_last() =~= txs);
            }
        }
    }

    /// Records the number of days the bucket's period covers.
    pub fn calc_averages(&mut self, days: i64)
        requires
            days > 0,
            old(self).transaction_count > 0,
        ensures
            final(self).period_days == days,
            final(self).total == old(self).total,
            final(self).transaction_count == old(self).transaction_count,
            final(self).by_category@ == old(self).by_category@,
            final(self).by_payment_method@ == old(self).by_payment_method@,
            final(self).by_note@ == old(self).by_note@,
    {
        self.period_days = days;
    }

    /// The finished statistics: the same sums, each breakdown sorted by
    /// non-increasing amount with ties kept in order of first occurrence.
    pub fn into_stats(self) -> (r: Stats)
        ensures
            r.total == self.total,
            r.transaction_count == self.transaction_count,
            r.period_days == self.period_days,
            entries_view(r.by_category@) == sort_desc(entries_view(self.by_category@)),
            entries_view(r.by_payment_method@) == sort_desc(entries_view(self.by_payment_method@)),
            entries_view(r.by_note@) == sort_desc(entries_view(self.by_note@)),
            forall|txs: Seq<Transaction>| #[trigger] self.folds(txs) ==> r.describes(txs),
    {
        let by_category = sort_entries(self.by_category);
        let by_payment_method = sort_entries(self.by_payment_method);
        let by_note = sort_entries(self.by_note);
        Stats {
            total: self.total,
            by_category,
            by_payment_method,
            by_note,
            transaction_count: self.transaction_count,
            period_days: self.period_days,
        }
    }
}

/// Everything a `Stats` holds, with keys seen as their text.
pub type StatsSummary = (int, int, int, Seq<(Seq<char>, int)>, Seq<(Seq<char>, int)>, Seq<(Seq<char>, int)>);

impl Stats {
    pub open spec fn summary(&self) -> StatsSummary {
        (
            self.total as int,
            self.transaction_count as int,
            self.period_days as int,
            entries_view(self.by_category@),
            entries_view(self.by_payment_method@),
            entries_view(self.by_note@),
        )
    }

    /// The statistics are what `into_stats` makes of `ts`.
    pub open spec fn finishes(&self, ts: TempStats) -> bool {
        &&& self.total == ts.total
        &&& self.transaction_count == ts.transaction_count
        &&& self.period_days == ts.period_days
        &&& entries_view(self.by_category@) == sort_desc(entries_view(ts.by_category@))
        &&& entries_view(self.by_payment_method@) == sort_desc(entries_view(ts.by_payment_method@))
        &&& entries_view(self.by_note@) == sort_desc(entries_view(ts.by_note@))
    }

    /// The statistics are those of `txs`.
    pub open spec fn describes(&self, txs: Seq<Transaction>) -> bool {
        &&& self.total == total_of(txs)
        &&& self.transaction_count == txs.len()
        &&& entries_view(self.by_category@) == sort_desc(breakdown_of(txs, Field::Category))
        &&& entries_view(self.by_payment_method@) == sort_desc(
            breakdown_of(txs, Field::PaymentMethod),
        )
        &&& entries_view(self.by_note@) == sort_desc(breakdown_of(txs, Field::Note))
    }
}

/// Each key of `keys_in_order` occurs once.
pub proof fn lemma_keys_distinct(txs: Seq<Transaction>, f: Field)
    ensures
        keys_in_order(txs, f).no_duplicates(),
        forall|k| #[trigger] keys_in_order(txs, f).contains(k) <==> exists|i: int|
            0 <= i < txs.len() && field_key(txs[i], f) == k,
    decreases txs.len(),
{
    if txs.len() > 0 {
        let p = txs.drop_last();
        lemma_keys_distinct(p, f);
        let kp = keys_in_order(p, f);
        let kl = field_key(txs.last(), f);
        assert forall|k| #[trigger] keys_in_order(txs, f).contains(k) <==> exists|i: int|
            0 <= i < txs.len() && field_key(txs[i], f) == k by {
            if exists|i: int| 0 <= i < txs.len() && field_key(txs[i], f) == k {
                let i = choose|i: int| 0 <= i < txs.len() && field_key(txs[i], f) == k;
                if i < p.len() {
                    assert(field_key(p[i], f) == k);
                    assert(kp.contains(k));
                    let j = choose|j: int| 0 <= j < kp.len() && kp[j] == k;
                    if !kp.contains(kl) {
                        assert(kp.push(kl)[j] == k);
                    }
                } else if !kp.contains(kl) {
                    assert(kp.push(kl)[kp.len() as int] == k);
                }
            }
            if keys_in_order(txs, f).contains(k) {
                if kp.contains(k) {
                    let i = choose|i: int| 0 <= i < p.len() && field_key(p[i], f) == k;
                    assert(txs[i] == p[i]);
                } else {
                    let j = choose|j: int| 0 <= j < kp.len() + 1 && kp.push(kl)[j] == k;
                    if j < kp.len() {
                        assert(kp[j] == k);
                    }
                    assert(field_key(txs[txs.len() - 1], f) == k);
                }
            }
        }
    }
}

/// A value of `f` that no transaction has sums to nothing.
proof fn lemma_subtotal_absent(txs: Seq<Transaction>, f: Field, k: Seq<char>)
    requires
        !keys_in_order(txs, f).contains(k),
    ensures
        subtotal_of(txs, f, k) == 0,
    decreases txs.len(),
{
    if txs.len() > 0 {
        let p = keys_in_order(txs.drop_last(), f);
        if p.contains(k) {
            let j = choose|j: int| 0 <= j < p.len() && p[j] == k;
            if !p.contains(field_key(txs.last(), f)) {
                assert(p.push(field_key(txs.last(), f))[j] == k);
            }
        } else {
            if field_key(txs.last(), f) == k {
                assert(keys_in_order(txs, f)[keys_in_order(txs, f).len() - 1] == k);
            }
            lemma_subtotal_absent(txs.drop_last(), f, k);
        }
    }
}

/// One more transaction adds its amount to the entry of its key.
pub proof fn lemma_breakdown_push(txs: Seq<Transaction>, t: Transaction, f: Field)
    ensures
        breakdown_of(txs.push(t), f) == add_entry(
            breakdown_of(txs, f),
            field_key(t, f),
            t.value as int,
        ),
        distinct_keys(breakdown_of(txs, f)),
{
    let s = txs.push(t);
    let k = field_key(t, f);
    assert(s.drop_last() =~= txs);
    lemma_keys_distinct(txs, f);
    let ks = keys_in_order(txs, f);
    let b = breakdown_of(txs, f);
    assert(distinct_keys(b)) by {
        assert forall|i: int, j: int| 0 <= i < j < b.len() implies b[i].0 != b[j].0 by {
            assert(ks[i] != ks[j]);
        }
    }
    if ks.contains(k) {
        let i = choose|i: int| 0 <= i < ks.len() && ks[i] == k;
        assert(b[i].0 == k);
        assert(has_key(b, k));
        assert(breakdown_of(s, f) =~= add_entry(b, k, t.value as int));
    } else {
        assert(!has_key(b, k)) by {
            if has_key(b, k) {
                let i = choose|i: int| 0 <= i < b.len() && b[i].0 == k;
                assert(ks[i] == k);
            }
        }
        lemma_subtotal_absent(txs, f, k);
        assert(breakdown_of(s, f) =~= add_entry(b, k, t.value as int));
    }
}

/// Within a bucket the subtotals of any breakdown add up to the bucket's
/// total.
pub proof fn lemma_breakdown_sums_to_total(txs: Seq<Transaction>, f: Field)
    ensures
        sum_values(breakdown_of(txs, f)) == total_of(txs),
    decreases txs.len(),
{
    if txs.len() > 0 {
        let p = txs.drop_last();
        lemma_breakdown_sums_to_total(p, f);
        lemma_breakdown_push(p, txs.last(), f);
        lemma_add_entry_sum(breakdown_of(p, f), field_key(txs.last(), f), txs.last().value as int);
        assert(p.push(txs.last()) =~= txs);
    }
}

/// In finished statistics every breakdown adds up to the total and lists its
/// amounts in non-increasing order.
pub proof fn lemma_stats_breakdowns(s: Stats, txs: Seq<Transaction>)
    requires
        s.describes(txs),
    ensures
        sum_values(entries_view(s.by_category@)) == s.total,
        sum_values(entries_view(s.by_payment_method@)) == s.total,
        sum_values(entries_view(s.by_note@)) == s.total,
        sorted_desc(entries_view(s.by_category@)),
        sorted_desc(entries_view(s.by_payment_method@)),
        sorted_desc(entries_view(s.by_note@)),
{
    lemma_breakdown_sums_to_total(txs, Field::Category);
    lemma_breakdown_sums_to_total(txs, Field::PaymentMethod);
    lemma_breakdown_sums_to_total(txs, Field::Note);
    lemma_sort_desc_facts(breakdown_of(txs, Field::Category));
    lemma_sort_desc_facts(breakdown_of(txs, Field::PaymentMethod));
    lemma_sort_desc_facts(breakdown_of(txs, Field::Note));
}

} // verus!
