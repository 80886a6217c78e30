use crate::breakdown::{entries_view, fits, room_for, sorted_desc, sum_values};
use crate::date::{
    day_number, days_from_ce, days_in_month, days_in_year, month_length, year_length, Date,
    lemma_num_bounds, MAX_YEAR, MIN_YEAR,
};
use crate::stats::{
    abs_total, breakdown_of, field_key, keys_in_order, lemma_breakdown_push, lemma_stats_breakdowns,
    subtotal_of,
    total_of, Field, Stats, StatsSummary, TempStats, Transaction,
};
use vstd::prelude::*;

verus! {

/// The three kinds of bucket a transaction can fall into.
pub enum Bucket {
    Year(i32),
    Month(i32, u32),
    /// The last `n` days: transactions at most `n` days before today.
    Window(i64),
}

pub open spec fn in_bucket(t: Transaction, b: Bucket, today: int) -> bool {
    match b {
        Bucket::Year(y) => t.date.year == y,
        Bucket::Month(y, m) => t.date.year == y && t.date.month == m,
        Bucket::Window(n) => today - t.date.num() <= n,
    }
}

/// The transactions of `txs` that fall into `b`, in order.
pub open spec fn bucket_txs(txs: Seq<Transaction>, b: Bucket, today: int) -> Seq<Transaction>
    decreases txs.len(),
{
    if txs.len() == 0 {
        seq![]
    } else {
        let p = bucket_txs(txs.drop_last(), b, today);
        if in_bucket(txs.last(), b, today) {
            p.push(txs.last())
        } else {
            p
        }
    }
}

/// Day number of the earliest transaction, or of today if that is earlier.
pub open spec fn start_day(txs: Seq<Transaction>, today: int) -> int
    decreases txs.len(),
{
    if txs.len() == 0 {
        today
    } else {
        let p = start_day(txs.drop_last(), today);
        if txs.last().date.num() < p {
            txs.last().date.num()
        } else {
            p
        }
    }
}

/// Days of the nominal period `[first, next)` that also lie in
/// `[start, today + 1)`, at most `length` and at least one.
pub open spec fn clipped_days(first: int, next: int, length: int, start: int, today: int) -> int {
    let from = if first < start { start } else { first };
    let to = if next < today + 1 { next } else { today + 1 };
    let d = if length < to - from { length } else { to - from };
    if d < 1 { 1 } else { d }
}

pub open spec fn year_period(y: int, start: int, today: int) -> int {
    clipped_days(days_from_ce(y, 1, 1), days_from_ce(y + 1, 1, 1), year_length(y), start, today)
}

pub open spec fn month_period(y: int, m: int, start: int, today: int) -> int {
    let next = if m == 12 { days_from_ce(y + 1, 1, 1) } else { days_from_ce(y, m + 1, 1) };
    clipped_days(days_from_ce(y, m, 1), next, month_length(y, m), start, today)
}

/// Position of a month on a single time line.
pub open spec fn month_index(y: int, m: int) -> int {
    y * 12 + m
}

proof fn lemma_bucket_push(s: Seq<Transaction>, t: Transaction, b: Bucket, today: int)
    ensures
        bucket_txs(s.push(t), b, today) == if in_bucket(t, b, today) {
            bucket_txs(s, b, today).push(t)
        } else {
            bucket_txs(s, b, today)
        },
        start_day(s.push(t), today) == if t.date.num() < start_day(s, today) {
            t.date.num()
        } else {
            start_day(s, today)
        },
{
    assert(s.push(t).drop_last() =~= s);
}

proof fn lemma_abs_push(s: Seq<Transaction>, t: Transaction)
    ensures
        abs_total(s.push(t)) == abs_total(s) + if t.value < 0 { -t.value } else { t.value as int },
        total_of(s.push(t)) == total_of(s) + t.value,
{
    assert(s.push(t).drop_last() =~= s);
}

proof fn lemma_bucket_bounds(s: Seq<Transaction>, b: Bucket, today: int)
    ensures
        abs_total(bucket_txs(s, b, today)) <= abs_total(s),
        bucket_txs(s, b, today).len() <= s.len(),
        bucket_txs(s, b, today).len() > 0 ==> exists|k: int|
            0 <= k < s.len() && in_bucket(#[trigger] s[k], b, today),
    decreases s.len(),
{
    if s.len() > 0 {
        let p = s.drop_last();
        lemma_bucket_bounds(p, b, today);
        lemma_bucket_push(p, s.last(), b, today);
        lemma_abs_push(bucket_txs(p, b, today), s.last());
        assert(p.push(s.last()) =~= s);
        if bucket_txs(p, b, today).len() > 0 {
            let k = choose|k: int| 0 <= k < p.len() && in_bucket(#[trigger] p[k], b, today);
            assert(s[k] == p[k]);
        }
        if in_bucket(s.last(), b, today) {
            assert(in_bucket(s[s.len() - 1], b, today));
        }
    }
}

proof fn lemma_abs_nonneg(s: Seq<Transaction>)
    ensures
        abs_total(s) >= 0,
        -abs_total(s) <= total_of(s) <= abs_total(s),
    decreases s.len(),
{
    if s.len() > 0 {
        lemma_abs_nonneg(s.drop_last());
    }
}

proof fn lemma_abs_prefix(s: Seq<Transaction>, i: int)
    requires
        0 <= i <= s.len(),
    ensures
        abs_total(s.subrange(0, i)) <= abs_total(s),
    decreases s.len() - i,
{
    if i < s.len() {
        lemma_abs_prefix(s, i + 1);
        assert(s.subrange(0, i + 1).drop_last() =~= s.subrange(0, i));
    } else {
        assert(s.subrange(0, i) =~= s);
    }
}

proof fn lemma_subtotal_bound(s: Seq<Transaction>, f: Field, k: Seq<char>)
    ensures
        -abs_total(s) <= subtotal_of(s, f, k) <= abs_total(s),
    decreases s.len(),
{
    if s.len() > 0 {
        lemma_subtotal_bound(s.drop_last(), f, k);
    }
}

/// An accumulator for `bt` has room for `t` when all amounts of `bt` and `t`
/// together fit in `i64`.
proof fn lemma_room(ts: TempStats, bt: Seq<Transaction>, t: Transaction)
    requires
        ts.folds(bt),
        abs_total(bt.push(t)) <= i64::MAX,
        bt.len() < u64::MAX,
    ensures
        ts.wf(),
        ts.has_room_for(&t),
{
    lemma_breakdown_push(bt, t, Field::Category);
    lemma_breakdown_push(bt, t, Field::PaymentMethod);
    lemma_breakdown_push(bt, t, Field::Note);
    lemma_abs_push(bt, t);
    lemma_abs_nonneg(bt.push(t));
    assert(bt.push(t).drop_last() =~= bt);
    assert forall|f: Field| #![auto]
        room_for(breakdown_of(bt, f), field_key(t, f), t.value as int) by {
        lemma_subtotal_bound(bt.push(t), f, field_key(t, f));
        assert forall|i: int|
            0 <= i < breakdown_of(bt, f).len() && breakdown_of(bt, f)[i].0 == field_key(
                t,
                f,
            ) implies fits(breakdown_of(bt, f)[i].1 + t.value) by {
            assert(keys_in_order(bt, f)[i] == field_key(t, f));
        }
    }
    assert(room_for(breakdown_of(bt, Field::Category), field_key(t, Field::Category), t.value as int));
    assert(room_for(breakdown_of(bt, Field::PaymentMethod), field_key(t, Field::PaymentMethod), t.value as int));
    assert(room_for(breakdown_of(bt, Field::Note), field_key(t, Field::Note), t.value as int));
}


/// Year buckets in ascending order, each with the sums of its transactions
/// of `s`; every year of `s` has one.
pub open spec fn years_fold(v: Seq<(i32, TempStats)>, s: Seq<Transaction>, today: int) -> bool {
    &&& forall|i: int, j: int| 0 <= i < j < v.len() ==> v[i].0 < v[j].0
    &&& forall|j: int|
        0 <= j < v.len() ==> MIN_YEAR <= (#[trigger] v[j]).0 <= MAX_YEAR && v[j].1.folds(
            bucket_txs(s, Bucket::Year(v[j].0), today),
        ) && v[j].1.transaction_count > 0
    &&& forall|k: int|
        0 <= k < s.len() ==> exists|j: int| 0 <= j < v.len() && v[j].0 == (#[trigger] s[k]).date.year
}

/// Month buckets in chronological order, each with the sums of its
/// transactions of `s`; every month of `s` has one.
pub open spec fn months_fold(v: Seq<((i32, u32), TempStats)>, s: Seq<Transaction>, today: int) -> bool {
    &&& forall|i: int, j: int|
        0 <= i < j < v.len() ==> month_index(v[i].0.0 as int, v[i].0.1 as int) < month_index(
            v[j].0.0 as int,
            v[j].0.1 as int,
        )
    &&& forall|j: int|
        0 <= j < v.len() ==> MIN_YEAR <= (#[trigger] v[j]).0.0 <= MAX_YEAR && 1 <= v[j].0.1 <= 12
            && v[j].1.folds(bucket_txs(s, Bucket::Month(v[j].0.0, v[j].0.1), today))
            && v[j].1.transaction_count > 0
    &&& forall|k: int|
        0 <= k < s.len() ==> exists|j: int|
            0 <= j < v.len() && v[j].0 == ((#[trigger] s[k]).date.year, s[k].date.month)
}

/// One window bucket for each configured window, with the sums of its
/// transactions of `s`.
pub open spec fn windows_fold(
    v: Seq<(i64, TempStats)>,
    windows: Seq<i64>,
    s: Seq<Transaction>,
    today: int,
) -> bool {
    &&& v.len() == windows.len()
    &&& forall|j: int|
        0 <= j < v.len() ==> (#[trigger] v[j]).0 == windows[j] && v[j].1.folds(
            bucket_txs(s, Bucket::Window(windows[j]), today),
        )
}

fn fold_year(
    v: &mut Vec<(i32, TempStats)>,
    t: &Transaction,
    Ghost(s): Ghost<Seq<Transaction>>,
    Ghost(today): Ghost<int>,
)
    requires
        years_fold(old(v)@, s, today),
        t.date.wf(),
        abs_total(s.push(*t)) <= i64::MAX,
        s.len() < u64::MAX,
    ensures
        years_fold(final(v)@, s.push(*t), today),
{
    let y = t.date.year;
    let n = v.len();
    let mut i: usize = 0;
    while i < n && v[i].0 < y
        invariant
            n == v@.len(),
            i <= n,
            forall|j: int| 0 <= j < i ==> (#[trigger] v@[j]).0 < y,
        decreases n - i,
    {
        i += 1;
    }
    let ghost b = Bucket::Year(y);
    let ghost bt = bucket_txs(s, b, today);
    proof {
        lemma_bucket_push(s, *t, b, today);
        lemma_bucket_bounds(s.push(*t), b, today);
        lemma_bucket_bounds(s, b, today);
    }
    if i < n && v[i].0 == y {
        proof {
            lemma_room(v@[i as int].1, bt, *t);
        }
    } else {
        proof {
            assert forall|j: int| 0 <= j < n implies (#[trigger] v@[j]).0 != y by {
                if j >= i {
                    assert(v@[i as int].0 > y);
                }
            }
            if bt.len() > 0 {
                let k = choose|k: int| 0 <= k < s.len() && in_bucket(#[trigger] s[k], b, today);
                let j = choose|j: int| 0 <= j < v@.len() && v@[j].0 == s[k].date.year;
                assert(v@[j].0 == y);
            }
            assert(bt =~= seq![]);
        }
        let fresh = TempStats::new();
        proof {
            lemma_room(fresh, bt, *t);
        }
        v.insert(i, (y, fresh));
    }
    let ghost mid = v@;
    v[i].1.update(t);
    proof {
        let s2 = s.push(*t);
        assert(v@ == mid.update(i as int, (y, v@[i as int].1)));
        assert forall|j: int| 0 <= j < v@.len() implies MIN_YEAR <= (#[trigger] v@[j]).0 <= MAX_YEAR
            && v@[j].1.folds(bucket_txs(s2, Bucket::Year(v@[j].0), today)) && v@[j].1.transaction_count > 0 by {
            if j != i {
                lemma_bucket_push(s, *t, Bucket::Year(v@[j].0), today);
                let jo = if j < i || mid.len() == n { j } else { j - 1 };
                assert(mid[j] == old(v)@[jo]);
            }
        }
        assert forall|k: int| 0 <= k < s2.len() implies exists|j: int|
            0 <= j < v@.len() && v@[j].0 == (#[trigger] s2[k]).date.year by {
            if k < s.len() {
                assert(s2[k] == s[k]);
                let jo = choose|jo: int| 0 <= jo < old(v)@.len() && old(v)@[jo].0 == s[k].date.year;
                let j = if jo < i || mid.len() == n { jo } else { jo + 1 };
                assert(v@[j].0 == old(v)@[jo].0);
            } else {
                assert(v@[i as int].0 == s2[k].date.year);
            }
        }
        assert forall|a: int, c: int| 0 <= a < c < v@.len() implies v@[a].0 < v@[c].0 by {
            if mid.len() != n {
                let ao = if a < i { a } else { a - 1 };
                let co = if c < i { c } else { c - 1 };
                if a != i && c != i {
                    assert(v@[a].0 == old(v)@[ao].0);
                    assert(v@[c].0 == old(v)@[co].0);
                } else if a == i {
                    assert(v@[c].0 == old(v)@[co].0);
                } else {
                    assert(v@[a].0 == old(v)@[ao].0);
                }
            }
        }
    }
}


fn fold_month(
    v: &mut Vec<((i32, u32), TempStats)>,
    t: &Transaction,
    Ghost(s): Ghost<Seq<Transaction>>,
    Ghost(today): Ghost<int>,
)
    requires
        months_fold(old(v)@, s, today),
        t.date.wf(),
        abs_total(s.push(*t)) <= i64::MAX,
        s.len() < u64::MAX,
    ensures
        months_fold(final(v)@, s.push(*t), today),
{
    let y = t.date.year;
    let m = t.date.month;
    let key: i64 = y as i64 * 12 + m as i64;
    let n = v.len();
    let mut i: usize = 0;
    while i < n && (v[i].0.0 as i64 * 12 + v[i].0.1 as i64) < key
        invariant
            n == v@.len(),
            i <= n,
            key == month_index(y as int, m as int),
            months_fold(v@, s, today),
            forall|j: int|
                0 <= j < i ==> month_index((#[trigger] v@[j]).0.0 as int, v@[j].0.1 as int) < key,
        decreases n - i,
    {
        i += 1;
    }
    let ghost b = Bucket::Month(y, m);
    let ghost bt = bucket_txs(s, b, today);
    proof {
        lemma_bucket_push(s, *t, b, today);
        lemma_bucket_bounds(s.push(*t), b, today);
        lemma_bucket_bounds(s, b, today);
    }
    if i < n && v[i].0.0 == y && v[i].0.1 == m {
        proof {
            lemma_room(v@[i as int].1, bt, *t);
        }
    } else {
        proof {
            assert forall|j: int| 0 <= j < n implies (#[trigger] v@[j]).0 != (y, m) by {
                if j >= i {
                    assert(month_index(v@[i as int].0.0 as int, v@[i as int].0.1 as int) >= key);
                    if v@[j].0 == (y, m) {
                        assert(month_index(v@[i as int].0.0 as int, v@[i as int].0.1 as int) > key);
                    }
                }
            }
            if bt.len() > 0 {
                let k = choose|k: int| 0 <= k < s.len() && in_bucket(#[trigger] s[k], b, today);
                let j = choose|j: int|
                    0 <= j < v@.len() && v@[j].0 == (s[k].date.year, s[k].date.month);
                assert(v@[j].0 == (y, m));
            }
            assert(bt =~= seq![]);
        }
        let fresh = TempStats::new();
        proof {
            lemma_room(fresh, bt, *t);
        }
        v.insert(i, ((y, m), fresh));
    }
    let ghost mid = v@;
    v[i].1.update(t);
    proof {
        let s2 = s.push(*t);
        assert(v@ == mid.update(i as int, ((y, m), v@[i as int].1)));
        assert forall|j: int| 0 <= j < v@.len() implies MIN_YEAR <= (#[trigger] v@[j]).0.0 <= MAX_YEAR
            && 1 <= v@[j].0.1 <= 12
            && v@[j].1.folds(bucket_txs(s2, Bucket::Month(v@[j].0.0, v@[j].0.1), today))
            && v@[j].1.transaction_count > 0 by {
            if j != i {
                lemma_bucket_push(s, *t, Bucket::Month(v@[j].0.0, v@[j].0.1), today);
                let jo = if j < i || mid.len() == n { j } else { j - 1 };
                assert(mid[j] == old(v)@[jo]);
            }
        }
        assert forall|k: int| 0 <= k < s2.len() implies exists|j: int|
            0 <= j < v@.len() && v@[j].0 == ((#[trigger] s2[k]).date.year, s2[k].date.month) by {
            if k < s.len() {
                assert(s2[k] == s[k]);
                let jo = choose|jo: int|
                    0 <= jo < old(v)@.len() && old(v)@[jo].0 == (s[k].date.year, s[k].date.month);
                let j = if jo < i || mid.len() == n { jo } else { jo + 1 };
                assert(v@[j].0 == old(v)@[jo].0);
            } else {
                assert(v@[i as int].0 == (s2[k].date.year, s2[k].date.month));
            }
        }
        assert forall|a: int, c: int| 0 <= a < c < v@.len() implies month_index(
            v@[a].0.0 as int,
            v@[a].0.1 as int,
        ) < month_index(v@[c].0.0 as int, v@[c].0.1 as int) by {
            if mid.len() != n {
                let ao = if a < i { a } else { a - 1 };
                let co = if c < i { c } else { c - 1 };
                if a != i && c != i {
                    assert(v@[a].0 == old(v)@[ao].0);
                    assert(v@[c].0 == old(v)@[co].0);
                } else if a == i {
                    assert(v@[c].0 == old(v)@[co].0);
                } else {
                    assert(v@[a].0 == old(v)@[ao].0);
                }
            }
        }
    }
}

fn fold_windows(
    v: &mut Vec<(i64, TempStats)>,
    windows: &Vec<i64>,
    t: &Transaction,
    today: i64,
    Ghost(s): Ghost<Seq<Transaction>>,
)
    requires
        windows_fold(old(v)@, windows@, s, today as int),
        t.date.wf(),
        abs_total(s.push(*t)) <= i64::MAX,
        s.len() < u64::MAX,
        -100_000_000 <= today <= 100_000_000,
    ensures
        windows_fold(final(v)@, windows@, s.push(*t), today as int),
{
    let d = t.date.number();
    proof {
        lemma_num_bounds(t.date.year as int, t.date.month as int, t.date.day as int);
    }
    let n = v.len();
    let mut j: usize = 0;
    while j < n
        invariant
            n == v@.len() == windows@.len(),
            j <= n,
            d == t.date.num(),
            -100_000_000 <= d <= 100_000_000,
            -100_000_000 <= today <= 100_000_000,
            abs_total(s.push(*t)) <= i64::MAX,
            s.len() < u64::MAX,
            forall|a: int|
                0 <= a < n ==> (#[trigger] v@[a]).0 == windows@[a] && v@[a].1.folds(
                    bucket_txs(
                        if a < j { s.push(*t) } else { s },
                        Bucket::Window(windows@[a]),
                        today as int,
                    ),
                ),
        decreases n - j,
    {
        let w = windows[j];
        proof {
            lemma_bucket_push(s, *t, Bucket::Window(w), today as int);
        }
        if today - d <= w {
            proof {
                let b = Bucket::Window(w);
                lemma_bucket_bounds(s.push(*t), b, today as int);
                lemma_bucket_bounds(s, b, today as int);
                lemma_room(v@[j as int].1, bucket_txs(s, b, today as int), *t);
            }
            v[j].1.update(t);
        }
        j += 1;
    }
}


/// Buckets while transactions are folded in: years and months in
/// chronological order, and one window bucket per configured window.
pub struct TempStatsCollection {
    pub yearly: Vec<(i32, TempStats)>,
    pub monthly: Vec<((i32, u32), TempStats)>,
    pub rolling: Vec<(i64, TempStats)>,
}

/// Finished buckets: years ascending, months in chronological order, and
/// the windows that hold at least one transaction, in configured order.
#[derive(Debug)]
pub struct StatsCollection {
    pub yearly: Vec<(i32, Stats)>,
    pub monthly: Vec<((i32, u32), Stats)>,
    pub rolling: Vec<(i64, Stats)>,
}

/// `out` holds, in order, what `into_stats` makes of each bucket of `inp`
/// that holds at least one transaction.
pub open spec fn rolling_finished(out: Seq<(i64, Stats)>, inp: Seq<(i64, TempStats)>) -> bool
    decreases inp.len(),
{
    if inp.len() == 0 {
        out.len() == 0
    } else if inp.last().1.transaction_count > 0 {
        &&& out.len() > 0
        &&& out.last().0 == inp.last().0
        &&& out.last().1.finishes(inp.last().1)
        &&& rolling_finished(out.drop_last(), inp.drop_last())
    } else {
        rolling_finished(out, inp.drop_last())
    }
}

/// `out` holds, in configured order, the statistics of each window that
/// holds at least one transaction of `txs`, averaged over the window's days.
pub open spec fn windows_described(
    out: Seq<(i64, Stats)>,
    windows: Seq<i64>,
    txs: Seq<Transaction>,
    today: int,
) -> bool
    decreases windows.len(),
{
    if windows.len() == 0 {
        out.len() == 0
    } else {
        let n = windows.last();
        let bt = bucket_txs(txs, Bucket::Window(n), today);
        if bt.len() > 0 {
            &&& out.len() > 0
            &&& out.last().0 == n
            &&& out.last().1.describes(bt)
            &&& out.last().1.period_days == n
            &&& windows_described(out.drop_last(), windows.drop_last(), txs, today)
        } else {
            windows_described(out, windows.drop_last(), txs, today)
        }
    }
}

impl StatsCollection {
    /// The buckets are those of `txs`, with `today` the day number of the
    /// reference date and `windows` the configured window sizes.
    pub open spec fn describes(&self, txs: Seq<Transaction>, today: int, windows: Seq<i64>) -> bool {
        let start = start_day(txs, today);
        let y = self.yearly@;
        let m = self.monthly@;
        &&& forall|i: int, j: int| 0 <= i < j < y.len() ==> y[i].0 < y[j].0
        &&& forall|j: int|
            0 <= j < y.len() ==> (#[trigger] y[j]).1.describes(
                bucket_txs(txs, Bucket::Year(y[j].0), today),
            ) && y[j].1.transaction_count > 0 && y[j].1.period_days == year_period(
                y[j].0 as int,
                start,
                today,
            )
        &&& forall|k: int|
            0 <= k < txs.len() ==> exists|j: int|
                0 <= j < y.len() && y[j].0 == (#[trigger] txs[k]).date.year
        &&& forall|i: int, j: int|
            0 <= i < j < m.len() ==> month_index(m[i].0.0 as int, m[i].0.1 as int) < month_index(
                m[j].0.0 as int,
                m[j].0.1 as int,
            )
        &&& forall|j: int|
            0 <= j < m.len() ==> (#[trigger] m[j]).1.describes(
                bucket_txs(txs, Bucket::Month(m[j].0.0, m[j].0.1), today),
            ) && m[j].1.transaction_count > 0 && m[j].1.period_days == month_period(
                m[j].0.0 as int,
                m[j].0.1 as int,
                start,
                today,
            )
        &&& forall|k: int|
            0 <= k < txs.len() ==> exists|j: int|
                0 <= j < m.len() && m[j].0 == ((#[trigger] txs[k]).date.year, txs[k].date.month)
        &&& windows_described(self.rolling@, windows, txs, today)
    }
}

fn finish_all<K>(v: Vec<(K, TempStats)>) -> (r: Vec<(K, Stats)>)
    ensures
        r@.len() == v@.len(),
        forall|a: int| 0 <= a < r@.len() ==> (#[trigger] r@[a]).0 == v@[a].0 && r@[a].1.finishes(v@[a].1),
{
    let ghost v0 = v@;
    let mut src = v;
    let mut out: Vec<(K, Stats)> = Vec::new();
    let n = src.len();
    let mut k: usize = 0;
    while k < n
        invariant
            n == v0.len(),
            k <= n,
            src@ == v0.subrange(k as int, n as int),
            out@.len() == k,
            forall|a: int| 0 <= a < k ==> (#[trigger] out@[a]).0 == v0[a].0 && out@[a].1.finishes(v0[a].1),
        decreases n - k,
    {
        let (key, ts) = src.remove(0);
        assert(v0[k as int] == (key, ts));
        out.push((key, ts.into_stats()));
        k += 1;
    }
    out
}

fn finish_nonempty(v: Vec<(i64, TempStats)>) -> (r: Vec<(i64, Stats)>)
    ensures
        rolling_finished(r@, v@),
{
    let ghost v0 = v@;
    let mut src = v;
    let mut out: Vec<(i64, Stats)> = Vec::new();
    let n = src.len();
    let mut k: usize = 0;
    while k < n
        invariant
            n == v0.len(),
            k <= n,
            src@ == v0.subrange(k as int, n as int),
            rolling_finished(out@, v0.subrange(0, k as int)),
        decreases n - k,
    {
        let (key, ts) = src.remove(0);
        assert(v0[k as int] == (key, ts));
        let ghost prev = out@;
        if ts.transaction_count > 0 {
            out.push((key, ts.into_stats()));
            assert(out@.drop_last() =~= prev);
        }
        assert(v0.subrange(0, k as int + 1).drop_last() =~= v0.subrange(0, k as int));
        k += 1;
    }
    assert(v0.subrange(0, n as int) =~= v0);
    out
}

/// Keys of year and month buckets, placed on a single time line.
pub trait BucketKey: Sized {
    spec fn rank_of(&self) -> int;

    fn rank(&self) -> (r: i64)
        ensures
            r == self.rank_of(),
    ;
}

impl BucketKey for i32 {
    open spec fn rank_of(&self) -> int {
        *self as int
    }

    fn rank(&self) -> (r: i64) {
        *self as i64
    }
}

impl BucketKey for (i32, u32) {
    open spec fn rank_of(&self) -> int {
        month_index(self.0 as int, self.1 as int)
    }

    fn rank(&self) -> (r: i64) {
        self.0 as i64 * 12 + self.1 as i64
    }
}

pub open spec fn distinct_ranks<K: BucketKey, T>(v: Seq<(K, T)>) -> bool {
    forall|i: int, j: int| 0 <= i < j < v.len() ==> v[i].0.rank_of() != v[j].0.rank_of()
}

pub open spec fn ascending_ranks<K: BucketKey, T>(v: Seq<(K, T)>) -> bool {
    forall|i: int, j: int| 0 <= i < j < v.len() ==> v[i].0.rank_of() < v[j].0.rank_of()
}

pub open spec fn in_prefix<T>(v: Seq<T>, k: int, x: T) -> bool {
    exists|b: int| 0 <= b < k && v[b] == x
}

/// `x` is what `into_stats` makes of some bucket of `v` with the same key.
pub open spec fn finished_from<K>(x: (K, Stats), v: Seq<(K, TempStats)>) -> bool {
    exists|b: int| 0 <= b < v.len() && x.0 == v[b].0 && x.1.finishes(v[b].1)
}

/// `r` holds what `into_stats` makes of the bucket `y`, under its key.
pub open spec fn finished_into<K>(y: (K, TempStats), r: Seq<(K, Stats)>) -> bool {
    exists|a: int| 0 <= a < r.len() && r[a].0 == y.0 && r[a].1.finishes(y.1)
}

/// The same entries, ordered by the rank of their keys.
fn sort_by_rank<K: BucketKey, T>(v: Vec<(K, T)>) -> (r: Vec<(K, T)>)
    requires
        distinct_ranks(v@),
    ensures
        ascending_ranks(r@),
        r@.len() == v@.len(),
        forall|a: int| 0 <= a < r@.len() ==> in_prefix(v@, v@.len() as int, #[trigger] r@[a]),
        forall|b: int| 0 <= b < v@.len() ==> in_prefix(r@, r@.len() as int, #[trigger] v@[b]),
{
    let ghost v0 = v@;
    let mut rest = v;
    let mut out: Vec<(K, T)> = Vec::new();
    let n = rest.len();
    let mut k: usize = 0;
    while k < n
        invariant
            n == v0.len(),
            k <= n,
            distinct_ranks(v0),
            rest@ == v0.subrange(k as int, n as int),
            ascending_ranks(out@),
            out@.len() == k,
            forall|a: int| 0 <= a < out@.len() ==> in_prefix(v0, k as int, #[trigger] out@[a]),
            forall|b: int| 0 <= b < k ==> in_prefix(out@, out@.len() as int, #[trigger] v0[b]),
        decreases n - k,
    {
        let x = rest.remove(0);
        assert(v0[k as int] == x);
        let xr = x.0.rank();
        let ghost q = out@;
        let mut p = out.len();
        while p > 0 && out[p - 1].0.rank() > xr
            invariant
                p <= out@.len(),
                q == out@,
                xr == x.0.rank_of(),
                forall|j: int| p <= j < q.len() ==> q[j].0.rank_of() > xr,
            decreases p,
        {
            p -= 1;
        }
        proof {
            assert forall|j: int| 0 <= j < p implies q[j].0.rank_of() < xr by {
                let b = choose|b: int| 0 <= b < k && v0[b] == q[p - 1];
                assert(v0[b].0.rank_of() != v0[k as int].0.rank_of());
                if j < p - 1 {
                    assert(q[j].0.rank_of() < q[p - 1].0.rank_of());
                }
            }
        }
        out.insert(p, x);
        proof {
            let o = out@;
            assert(o == q.insert(p as int, x));
            assert forall|a: int, c: int| 0 <= a < c < o.len() implies o[a].0.rank_of() < o[c].0.rank_of() by {
                if a < p && c > p {
                    assert(o[c] == q[c - 1]);
                    assert(o[a] == q[a]);
                } else if a > p {
                    assert(o[c] == q[c - 1]);
                    assert(o[a] == q[a - 1]);
                } else if c < p {
                    assert(o[c] == q[c]);
                    assert(o[a] == q[a]);
                } else if a == p {
                    assert(o[c] == q[c - 1]);
                } else {
                    assert(o[a] == q[a]);
                }
            }
            assert forall|a: int| 0 <= a < o.len() implies in_prefix(v0, k + 1, #[trigger] o[a]) by {
                if a == p {
                    assert(o[a] == v0[k as int]);
                } else {
                    let aq = if a < p { a } else { a - 1 };
                    assert(o[a] == q[aq]);
                    assert(in_prefix(v0, k as int, q[aq]));
                    let b = choose|b: int| 0 <= b < k && v0[b] == q[aq];
                    assert(o[a] == v0[b]);
                }
            }
            assert forall|b: int| 0 <= b < k + 1 implies in_prefix(o, o.len() as int, #[trigger] v0[b]) by {
                if b == k {
                    assert(o[p as int] == v0[b]);
                } else {
                    assert(in_prefix(q, q.len() as int, v0[b]));
                    let aq = choose|aq: int| 0 <= aq < q.len() && q[aq] == v0[b];
                    let a = if aq < p { aq } else { aq + 1 };
                    assert(o[a] == q[aq]);
                }
            }
        }
        k += 1;
    }
    out
}

impl TempStatsCollection {
    /// Bucket keys are distinct and months are months of the year.
    pub open spec fn wf(&self) -> bool {
        &&& distinct_ranks(self.yearly@)
        &&& distinct_ranks(self.monthly@)
        &&& forall|j: int| 0 <= j < self.monthly@.len() ==> 1 <= (#[trigger] self.monthly@[j]).0.1 <= 12
    }
    /// No buckets of years or months yet, and an empty bucket for each window.
    pub fn new(windows: &Vec<i64>) -> (r: TempStatsCollection)
        ensures
            r.yearly@.len() == 0,
            r.monthly@.len() == 0,
            r.rolling@.len() == windows@.len(),
            forall|j: int|
                0 <= j < windows@.len() ==> (#[trigger] r.rolling@[j]).0 == windows@[j]
                    && r.rolling@[j].1.folds(seq![]) && r.rolling@[j].1.period_days == 0,
    {
        let mut rolling: Vec<(i64, TempStats)> = Vec::new();
        let n = windows.len();
        let mut j: usize = 0;
        while j < n
            invariant
                n == windows@.len(),
                j <= n,
                rolling@.len() == j,
                forall|a: int|
                    0 <= a < j ==> (#[trigger] rolling@[a]).0 == windows@[a]
                        && rolling@[a].1.folds(seq![]) && rolling@[a].1.period_days == 0,
            decreases n - j,
        {
            rolling.push((windows[j], TempStats::new()));
            j += 1;
        }
        TempStatsCollection { yearly: Vec::new(), monthly: Vec::new(), rolling }
    }

    /// The finished statistics of every bucket; window buckets without
    /// transactions are left out.
    pub fn into_stats_collection(self) -> (r: StatsCollection)
        requires
            self.wf(),
        ensures
            ascending_ranks(r.yearly@),
            r.yearly@.len() == self.yearly@.len(),
            forall|a: int| 0 <= a < r.yearly@.len() ==> finished_from(#[trigger] r.yearly@[a], self.yearly@),
            forall|b: int| 0 <= b < self.yearly@.len() ==> finished_into(#[trigger] self.yearly@[b], r.yearly@),
            ascending_ranks(r.monthly@),
            r.monthly@.len() == self.monthly@.len(),
            forall|a: int| 0 <= a < r.monthly@.len() ==> finished_from(#[trigger] r.monthly@[a], self.monthly@),
            forall|b: int| 0 <= b < self.monthly@.len() ==> finished_into(#[trigger] self.monthly@[b], r.monthly@),
            rolling_finished(r.rolling@, self.rolling@),
    {
        let ghost y0 = self.yearly@;
        let ghost m0 = self.monthly@;
        let yearly = finish_all(self.yearly);
        let monthly = finish_all(self.monthly);
        proof {
            assert forall|i: int, j: int| 0 <= i < j < yearly@.len() implies yearly@[i].0.rank_of()
                != yearly@[j].0.rank_of() by {
                assert(yearly@[i].0 == y0[i].0);
                assert(yearly@[j].0 == y0[j].0);
            }
            assert forall|i: int, j: int| 0 <= i < j < monthly@.len() implies monthly@[i].0.rank_of()
                != monthly@[j].0.rank_of() by {
                assert(monthly@[i].0 == m0[i].0);
                assert(monthly@[j].0 == m0[j].0);
            }
        }
        let ghost yf = yearly@;
        let ghost mf = monthly@;
        let r = StatsCollection {
            yearly: sort_by_rank(yearly),
            monthly: sort_by_rank(monthly),
            rolling: finish_nonempty(self.rolling),
        };
        proof {
            assert forall|a: int| 0 <= a < r.yearly@.len() implies finished_from(#[trigger] r.yearly@[a], y0) by {
                let b = choose|b: int| 0 <= b < yf.len() && yf[b] == r.yearly@[a];
                assert(yf[b].0 == y0[b].0 && yf[b].1.finishes(y0[b].1));
            }
            assert forall|b: int| 0 <= b < y0.len() implies finished_into(#[trigger] y0[b], r.yearly@) by {
                assert(yf[b].0 == y0[b].0 && yf[b].1.finishes(y0[b].1));
                assert(in_prefix(r.yearly@, r.yearly@.len() as int, yf[b]));
                let a = choose|a: int| 0 <= a < r.yearly@.len() && r.yearly@[a] == yf[b];
            }
            assert forall|a: int| 0 <= a < r.monthly@.len() implies finished_from(#[trigger] r.monthly@[a], m0) by {
                let b = choose|b: int| 0 <= b < mf.len() && mf[b] == r.monthly@[a];
                assert(mf[b].0 == m0[b].0 && mf[b].1.finishes(m0[b].1));
            }
            assert forall|b: int| 0 <= b < m0.len() implies finished_into(#[trigger] m0[b], r.monthly@) by {
                assert(mf[b].0 == m0[b].0 && mf[b].1.finishes(m0[b].1));
                assert(in_prefix(r.monthly@, r.monthly@.len() as int, mf[b]));
                let a = choose|a: int| 0 <= a < r.monthly@.len() && r.monthly@[a] == mf[b];
            }
        }
        r
    }
}

fn clip_days(first: i64, next: i64, length: i64, start: i64, today: i64) -> (r: i64)
    requires
        -100_000_000 <= first <= 100_000_000,
        -100_000_000 <= next <= 100_000_000,
        -100_000_000 <= start <= 100_000_000,
        -100_000_000 <= today <= 100_000_000,
        1 <= length <= 366,
    ensures
        r == clipped_days(first as int, next as int, length as int, start as int, today as int),
        r >= 1,
{
    let from = if first < start { start } else { first };
    let to = if next < today + 1 { next } else { today + 1 };
    let d = if length < to - from { length } else { to - from };
    if d < 1 { 1 } else { d }
}

proof fn lemma_windows(
    out: Seq<(i64, Stats)>,
    inp: Seq<(i64, TempStats)>,
    windows: Seq<i64>,
    txs: Seq<Transaction>,
    today: int,
)
    requires
        rolling_finished(out, inp),
        inp.len() == windows.len(),
        forall|j: int|
            0 <= j < inp.len() ==> (#[trigger] inp[j]).0 == windows[j] && inp[j].1.folds(
                bucket_txs(txs, Bucket::Window(windows[j]), today),
            ) && (inp[j].1.transaction_count > 0 ==> inp[j].1.period_days == windows[j]),
    ensures
        windows_described(out, windows, txs, today),
    decreases inp.len(),
{
    if inp.len() > 0 {
        let last = inp.len() - 1;
        assert(inp[last] == inp.last());
        if inp.last().1.transaction_count > 0 {
            lemma_windows(out.drop_last(), inp.drop_last(), windows.drop_last(), txs, today);
        } else {
            lemma_windows(out, inp.drop_last(), windows.drop_last(), txs, today);
        }
    }
}

/// Statistics of every year, month and configured window of
/// `transactions`, seen from `today`.
///
/// A transaction counts in the window of `n` days when it lies at most `n`
/// days before today. A year's or month's daily average is taken over the
/// days of the period that lie between the earliest transaction (or today,
/// if earlier) and today inclusive, and over at least one day; a window's
/// over its `n` days.
pub fn get_stats(transactions: &Vec<Transaction>, today: Date, windows: &Vec<i64>) -> (r: StatsCollection)
    requires
        today.wf(),
        forall|i: int| 0 <= i < transactions@.len() ==> (#[trigger] transactions@[i]).date.wf(),
        abs_total(transactions@) <= i64::MAX,
        forall|j: int| 0 <= j < windows@.len() ==> #[trigger] windows@[j] > 0,
    ensures
        r.describes(transactions@, today.num(), windows@),
{
    let ghost txs = transactions@;
    let today_n = today.number();
    proof {
        lemma_num_bounds(today.year as int, today.month as int, today.day as int);
    }
    let mut start = today_n;
    let mut tsc = TempStatsCollection::new(windows);
    let n = transactions.len();
    let mut i: usize = 0;
    proof {
        assert(txs.subrange(0, 0) =~= seq![]);
    }
    while i < n
        invariant
            n == txs.len(),
            txs == transactions@,
            i <= n,
            today_n == today.num(),
            -100_000_000 <= today_n <= 100_000_000,
            -100_000_000 <= start <= 100_000_000,
            start == start_day(txs.subrange(0, i as int), today_n as int),
            abs_total(txs) <= i64::MAX,
            forall|a: int| 0 <= a < txs.len() ==> (#[trigger] txs[a]).date.wf(),
            years_fold(tsc.yearly@, txs.subrange(0, i as int), today_n as int),
            months_fold(tsc.monthly@, txs.subrange(0, i as int), today_n as int),
            windows_fold(tsc.rolling@, windows@, txs.subrange(0, i as int), today_n as int),
        decreases n - i,
    {
        let t = &transactions[i];
        let ghost s = txs.subrange(0, i as int);
        proof {
            assert(txs.subrange(0, i as int + 1) =~= s.push(*t));
            lemma_abs_prefix(txs, i as int + 1);
            lemma_bucket_push(s, *t, Bucket::Year(0), today_n as int);
            lemma_num_bounds(t.date.year as int, t.date.month as int, t.date.day as int);
        }
        let d = t.date.number();
        if d < start {
            start = d;
        }
        fold_year(&mut tsc.yearly, t, Ghost(s), Ghost(today_n as int));
        fold_month(&mut tsc.monthly, t, Ghost(s), Ghost(today_n as int));
        fold_windows(&mut tsc.rolling, windows, t, today_n, Ghost(s));
        i += 1;
    }
    proof {
        assert(txs.subrange(0, n as int) =~= txs);
    }
    let ghost y0 = tsc.yearly@;
    let ghost m0 = tsc.monthly@;
    let ghost w0 = tsc.rolling@;
    let ny = tsc.yearly.len();
    let mut j: usize = 0;
    while j < ny
        invariant
            ny == y0.len() == tsc.yearly@.len(),
            j <= ny,
            -100_000_000 <= today_n <= 100_000_000,
            -100_000_000 <= start <= 100_000_000,
            years_fold(y0, txs, today_n as int),
            tsc.monthly@ == m0,
            tsc.rolling@ == w0,
            months_fold(m0, txs, today_n as int),
            windows_fold(w0, windows@, txs, today_n as int),
            forall|a: int| 0 <= a < windows@.len() ==> #[trigger] windows@[a] > 0,
            forall|a: int|
                0 <= a < ny ==> (#[trigger] tsc.yearly@[a]).0 == y0[a].0 && tsc.yearly@[a].1.folds(
                    bucket_txs(txs, Bucket::Year(y0[a].0), today_n as int),
                ) && tsc.yearly@[a].1.transaction_count > 0 && (a < j ==> tsc.yearly@[a].1.period_days
                    == year_period(y0[a].0 as int, start as int, today_n as int)),
        decreases ny - j,
    {
        let y = tsc.yearly[j].0;
        assert(y0[j as int].0 == y);
        proof {
            lemma_num_bounds(y as int, 1, 1);
            lemma_num_bounds(y as int + 1, 1, 1);
        }
        let first = day_number(y, 1, 1);
        let next = day_number(y + 1, 1, 1);
        let len = days_in_year(Date { year: y, month: 1, day: 1 });
        let days = clip_days(first, next, len, start, today_n);
        tsc.yearly[j].1.calc_averages(days);
        j += 1;
    }
    let ghost y1 = tsc.yearly@;
    let nm = tsc.monthly.len();
    let mut j: usize = 0;
    while j < nm
        invariant
            nm == m0.len() == tsc.monthly@.len(),
            j <= nm,
            -100_000_000 <= today_n <= 100_000_000,
            -100_000_000 <= start <= 100_000_000,
            months_fold(m0, txs, today_n as int),
            tsc.yearly@ == y1,
            tsc.rolling@ == w0,
            windows_fold(w0, windows@, txs, today_n as int),
            forall|a: int| 0 <= a < windows@.len() ==> #[trigger] windows@[a] > 0,
            forall|a: int|
                0 <= a < nm ==> (#[trigger] tsc.monthly@[a]).0 == m0[a].0 && tsc.monthly@[a].1.folds(
                    bucket_txs(txs, Bucket::Month(m0[a].0.0, m0[a].0.1), today_n as int),
                ) && tsc.monthly@[a].1.transaction_count > 0 && (a < j
                    ==> tsc.monthly@[a].1.period_days == month_period(
                    m0[a].0.0 as int,
                    m0[a].0.1 as int,
                    start as int,
                    today_n as int,
                )),
        decreases nm - j,
    {
        let (y, m) = tsc.monthly[j].0;
        assert(m0[j as int].0 == (y, m));
        proof {
            lemma_num_bounds(y as int, m as int, 1);
            lemma_num_bounds(y as int + 1, 1, 1);
            if m < 12 {
                lemma_num_bounds(y as int, m as int + 1, 1);
            }
        }
        let first = day_number(y, m, 1);
        let next = if m == 12 { day_number(y + 1, 1, 1) } else { day_number(y, m + 1, 1) };
        let len = days_in_month(Date { year: y, month: m, day: 1 });
        let days = clip_days(first, next, len, start, today_n);
        tsc.monthly[j].1.calc_averages(days);
        j += 1;
    }
    let ghost m1 = tsc.monthly@;
    let nw = tsc.rolling.len();
    let mut j: usize = 0;
    while j < nw
        invariant
            nw == w0.len() == tsc.rolling@.len() == windows@.len(),
            j <= nw,
            windows_fold(w0, windows@, txs, today_n as int),
            tsc.yearly@ == y1,
            tsc.monthly@ == m1,
            forall|a: int| 0 <= a < windows@.len() ==> #[trigger] windows@[a] > 0,
            forall|a: int|
                0 <= a < nw ==> (#[trigger] tsc.rolling@[a]).0 == windows@[a] && tsc.rolling@[a].1.folds(
                    bucket_txs(txs, Bucket::Window(windows@[a]), today_n as int),
                ) && (a < j && tsc.rolling@[a].1.transaction_count > 0
                    ==> tsc.rolling@[a].1.period_days == windows@[a]),
        decreases nw - j,
    {
        if tsc.rolling[j].1.transaction_count > 0 {
            let w = windows[j];
            tsc.rolling[j].1.calc_averages(w);
        }
        j += 1;
    }
    let ghost fin = tsc;
    proof {
        assert forall|i: int, j: int| 0 <= i < j < tsc.yearly@.len() implies tsc.yearly@[i].0.rank_of()
            != tsc.yearly@[j].0.rank_of() by {
            assert(tsc.yearly@[i].0 == y0[i].0);
            assert(tsc.yearly@[j].0 == y0[j].0);
        }
        assert forall|i: int, j: int| 0 <= i < j < tsc.monthly@.len() implies tsc.monthly@[i].0.rank_of()
            != tsc.monthly@[j].0.rank_of() by {
            assert(tsc.monthly@[i].0 == m0[i].0);
            assert(tsc.monthly@[j].0 == m0[j].0);
        }
        assert forall|j: int| 0 <= j < tsc.monthly@.len() implies 1 <= (#[trigger] tsc.monthly@[j]).0.1 <= 12 by {
            assert(tsc.monthly@[j].0 == m0[j].0);
        }
    }
    let ghost fin = tsc;
    let r = tsc.into_stats_collection();
    proof {
        let start_n = start as int;
        let t_n = today_n as int;
        lemma_windows(r.rolling@, fin.rolling@, windows@, txs, today_n as int);
        assert forall|a: int| 0 <= a < r.yearly@.len() implies (#[trigger] r.yearly@[a]).1.describes(
            bucket_txs(txs, Bucket::Year(r.yearly@[a].0), t_n),
        ) && r.yearly@[a].1.transaction_count > 0 && r.yearly@[a].1.period_days == year_period(
            r.yearly@[a].0 as int,
            start_n,
            t_n,
        ) by {
            let b = choose|b: int|
                0 <= b < fin.yearly@.len() && r.yearly@[a].0 == fin.yearly@[b].0
                    && r.yearly@[a].1.finishes(fin.yearly@[b].1);
            assert(fin.yearly@[b].0 == y0[b].0);
        }
        assert forall|a: int| 0 <= a < r.monthly@.len() implies (#[trigger] r.monthly@[a]).1.describes(
            bucket_txs(txs, Bucket::Month(r.monthly@[a].0.0, r.monthly@[a].0.1), t_n),
        ) && r.monthly@[a].1.transaction_count > 0 && r.monthly@[a].1.period_days == month_period(
            r.monthly@[a].0.0 as int,
            r.monthly@[a].0.1 as int,
            start_n,
            t_n,
        ) by {
            let b = choose|b: int|
                0 <= b < fin.monthly@.len() && r.monthly@[a].0 == fin.monthly@[b].0
                    && r.monthly@[a].1.finishes(fin.monthly@[b].1);
            assert(fin.monthly@[b].0 == m0[b].0);
        }
        assert forall|k: int| 0 <= k < txs.len() implies exists|a: int|
            0 <= a < r.yearly@.len() && r.yearly@[a].0 == (#[trigger] txs[k]).date.year by {
            let b = choose|b: int| 0 <= b < y0.len() && y0[b].0 == txs[k].date.year;
            assert(fin.yearly@[b].0 == y0[b].0);
            let a = choose|a: int|
                0 <= a < r.yearly@.len() && r.yearly@[a].0 == fin.yearly@[b].0
                    && r.yearly@[a].1.finishes(fin.yearly@[b].1);
        }
        assert forall|k: int| 0 <= k < txs.len() implies exists|a: int|
            0 <= a < r.monthly@.len() && r.monthly@[a].0 == ((#[trigger] txs[k]).date.year, txs[k].date.month) by {
            let b = choose|b: int| 0 <= b < m0.len() && m0[b].0 == (txs[k].date.year, txs[k].date.month);
            assert(fin.monthly@[b].0 == m0[b].0);
            let a = choose|a: int|
                0 <= a < r.monthly@.len() && r.monthly@[a].0 == fin.monthly@[b].0
                    && r.monthly@[a].1.finishes(fin.monthly@[b].1);
        }
        assert forall|a: int, c: int| 0 <= a < c < r.yearly@.len() implies r.yearly@[a].0 < r.yearly@[c].0 by {
            assert(r.yearly@[a].0.rank_of() < r.yearly@[c].0.rank_of());
        }
        assert forall|a: int, c: int| 0 <= a < c < r.monthly@.len() implies month_index(
            r.monthly@[a].0.0 as int,
            r.monthly@[a].0.1 as int,
        ) < month_index(r.monthly@[c].0.0 as int, r.monthly@[c].0.1 as int) by {
            assert(r.monthly@[a].0.rank_of() < r.monthly@[c].0.rank_of());
        }
    }
    r
}


/// A window bucket of `n` days holds no transaction more than `n` days
/// before today.
pub proof fn lemma_window_members(txs: Seq<Transaction>, n: i64, today: int)
    ensures
        forall|i: int|
            0 <= i < bucket_txs(txs, Bucket::Window(n), today).len() ==> today - (
            #[trigger] bucket_txs(txs, Bucket::Window(n), today)[i]).date.num() <= n,
    decreases txs.len(),
{
    if txs.len() > 0 {
        lemma_window_members(txs.drop_last(), n, today);
    }
}

/// The nominal period of a December bucket ends on January 1 of the next
/// year, 31 days after it starts.
pub proof fn lemma_december_period(y: int, start: int, today: int)
    ensures
        month_period(y, 12, start, today) == clipped_days(
            days_from_ce(y, 12, 1),
            days_from_ce(y + 1, 1, 1),
            31,
            start,
            today,
        ),
        days_from_ce(y + 1, 1, 1) - days_from_ce(y, 12, 1) == 31,
{
    crate::date::lemma_year_span(y);
    crate::date::lemma_months_fill_year(y);
    reveal_with_fuel(crate::date::days_before_month, 13);
}


pub open spec fn yearly_summary(c: StatsCollection) -> Seq<(i32, StatsSummary)> {
    c.yearly@.map_values(|p: (i32, Stats)| (p.0, p.1.summary()))
}

pub open spec fn monthly_summary(c: StatsCollection) -> Seq<((i32, u32), StatsSummary)> {
    c.monthly@.map_values(|p: ((i32, u32), Stats)| (p.0, p.1.summary()))
}

pub open spec fn rolling_summary(c: StatsCollection) -> Seq<(i64, StatsSummary)> {
    c.rolling@.map_values(|p: (i64, Stats)| (p.0, p.1.summary()))
}

pub open spec fn ascending(a: Seq<int>) -> bool {
    forall|i: int, j: int| 0 <= i < j < a.len() ==> a[i] < a[j]
}

proof fn lemma_ascending_unique(a: Seq<int>, b: Seq<int>)
    requires
        ascending(a),
        ascending(b),
        forall|x: int| a.contains(x) <==> b.contains(x),
    ensures
        a == b,
    decreases a.len() + b.len(),
{
    if a.len() == 0 || b.len() == 0 {
        if a.len() > 0 {
            assert(a.contains(a[0]));
        }
        if b.len() > 0 {
            assert(b.contains(b[0]));
        }
        assert(a =~= b);
    } else {
        let la = a.last();
        let lb = b.last();
        assert(a.contains(la));
        assert(b.contains(lb));
        let ia = choose|i: int| 0 <= i < a.len() && a[i] == lb;
        let ib = choose|i: int| 0 <= i < b.len() && b[i] == la;
        assert(la <= lb);
        assert(lb <= la);
        let a2 = a.drop_last();
        let b2 = b.drop_last();
        assert forall|x: int| a2.contains(x) <==> b2.contains(x) by {
            if a2.contains(x) {
                let i = choose|i: int| 0 <= i < a2.len() && a2[i] == x;
                assert(a.contains(x));
                let j = choose|j: int| 0 <= j < b.len() && b[j] == x;
                assert(j != b.len() - 1);
                assert(b2[j] == x);
            }
            if b2.contains(x) {
                let i = choose|i: int| 0 <= i < b2.len() && b2[i] == x;
                assert(b.contains(x));
                let j = choose|j: int| 0 <= j < a.len() && a[j] == x;
                assert(j != a.len() - 1);
                assert(a2[j] == x);
            }
        }
        lemma_ascending_unique(a2, b2);
        assert(a =~= a2.push(la));
        assert(b =~= b2.push(lb));
    }
}

proof fn lemma_windows_unique(
    o1: Seq<(i64, Stats)>,
    o2: Seq<(i64, Stats)>,
    windows: Seq<i64>,
    txs: Seq<Transaction>,
    today: int,
)
    requires
        windows_described(o1, windows, txs, today),
        windows_described(o2, windows, txs, today),
    ensures
        o1.map_values(|p: (i64, Stats)| (p.0, p.1.summary())) == o2.map_values(
            |p: (i64, Stats)| (p.0, p.1.summary()),
        ),
    decreases windows.len(),
{
    let f = |p: (i64, Stats)| (p.0, p.1.summary());
    if windows.len() == 0 {
        assert(o1.map_values(f) =~= o2.map_values(f));
    } else {
        let bt = bucket_txs(txs, Bucket::Window(windows.last()), today);
        if bt.len() > 0 {
            lemma_windows_unique(o1.drop_last(), o2.drop_last(), windows.drop_last(), txs, today);
            assert(o1.map_values(f) =~= o1.drop_last().map_values(f).push(f(o1.last())));
            assert(o2.map_values(f) =~= o2.drop_last().map_values(f).push(f(o2.last())));
        } else {
            lemma_windows_unique(o1, o2, windows.drop_last(), txs, today);
        }
    }
}

/// Two results that both describe the same transactions, reference day and
/// windows agree on every key and every number: the aggregation is a
/// function of its inputs.
pub proof fn lemma_result_determined(
    c1: StatsCollection,
    c2: StatsCollection,
    txs: Seq<Transaction>,
    today: int,
    windows: Seq<i64>,
)
    requires
        forall|i: int| 0 <= i < txs.len() ==> (#[trigger] txs[i]).date.wf(),
        c1.describes(txs, today, windows),
        c2.describes(txs, today, windows),
    ensures
        yearly_summary(c1) == yearly_summary(c2),
        monthly_summary(c1) == monthly_summary(c2),
        rolling_summary(c1) == rolling_summary(c2),
{
    lemma_windows_unique(c1.rolling@, c2.rolling@, windows, txs, today);
    // years
    let k1 = c1.yearly@.map_values(|p: (i32, Stats)| p.0 as int);
    let k2 = c2.yearly@.map_values(|p: (i32, Stats)| p.0 as int);
    assert forall|x: int| k1.contains(x) <==> exists|k: int|
        0 <= k < txs.len() && txs[k].date.year == x by {
        if k1.contains(x) {
            let j = choose|j: int| 0 <= j < k1.len() && k1[j] == x;
            assert(c1.yearly@[j].1.describes(bucket_txs(txs, Bucket::Year(c1.yearly@[j].0), today)));
            lemma_bucket_bounds(txs, Bucket::Year(c1.yearly@[j].0), today);
            let k = choose|k: int| 0 <= k < txs.len() && in_bucket(#[trigger] txs[k], Bucket::Year(c1.yearly@[j].0), today);
            assert(txs[k].date.year == x);
        }
        if exists|k: int| 0 <= k < txs.len() && txs[k].date.year == x {
            let k = choose|k: int| 0 <= k < txs.len() && txs[k].date.year == x;
            let j = choose|j: int| 0 <= j < c1.yearly@.len() && c1.yearly@[j].0 == (#[trigger] txs[k]).date.year;
            assert(k1[j] == x);
        }
    }
    assert forall|x: int| k2.contains(x) <==> exists|k: int|
        0 <= k < txs.len() && txs[k].date.year == x by {
        if k2.contains(x) {
            let j = choose|j: int| 0 <= j < k2.len() && k2[j] == x;
            assert(c2.yearly@[j].1.describes(bucket_txs(txs, Bucket::Year(c2.yearly@[j].0), today)));
            lemma_bucket_bounds(txs, Bucket::Year(c2.yearly@[j].0), today);
            let k = choose|k: int| 0 <= k < txs.len() && in_bucket(#[trigger] txs[k], Bucket::Year(c2.yearly@[j].0), today);
            assert(txs[k].date.year == x);
        }
        if exists|k: int| 0 <= k < txs.len() && txs[k].date.year == x {
            let k = choose|k: int| 0 <= k < txs.len() && txs[k].date.year == x;
            let j = choose|j: int| 0 <= j < c2.yearly@.len() && c2.yearly@[j].0 == (#[trigger] txs[k]).date.year;
            assert(k2[j] == x);
        }
    }
    lemma_ascending_unique(k1, k2);
    assert forall|j: int| 0 <= j < c1.yearly@.len() implies c1.yearly@[j].0 == c2.yearly@[j].0 by {
        assert(k1[j] == k2[j]);
    }
    assert(yearly_summary(c1) =~= yearly_summary(c2));
    // months
    let m1 = month_keys(c1);
    let m2 = month_keys(c2);
    lemma_month_keys(c1, txs, today, windows);
    lemma_month_keys(c2, txs, today, windows);
    lemma_ascending_unique(m1, m2);
    assert forall|j: int| 0 <= j < c1.monthly@.len() implies c1.monthly@[j].0 == c2.monthly@[j].0 by {
        assert(m1[j] == m2[j]);
        let a = c1.monthly@[j].0;
        let b = c2.monthly@[j].0;
        assert(1 <= a.1 <= 12 && 1 <= b.1 <= 12);
        assert(a.0 as int * 12 + a.1 == b.0 as int * 12 + b.1);
        assert(a.0 == b.0) by (nonlinear_arith)
            requires
                a.0 as int * 12 + a.1 == b.0 as int * 12 + b.1,
                1 <= a.1 <= 12,
                1 <= b.1 <= 12,
        ;
    }
    assert(monthly_summary(c1) =~= monthly_summary(c2));
}

pub open spec fn month_keys(c: StatsCollection) -> Seq<int> {
    c.monthly@.map_values(|p: ((i32, u32), Stats)| month_index(p.0.0 as int, p.0.1 as int))
}

proof fn lemma_month_keys(c: StatsCollection, txs: Seq<Transaction>, today: int, windows: Seq<i64>)
    requires
        forall|i: int| 0 <= i < txs.len() ==> (#[trigger] txs[i]).date.wf(),
        c.describes(txs, today, windows),
    ensures
        forall|j: int| 0 <= j < c.monthly@.len() ==> 1 <= (#[trigger] c.monthly@[j]).0.1 <= 12,
        ascending(month_keys(c)),
        forall|x: int|
            #[trigger] month_keys(c).contains(x) <==> exists|k: int|
                0 <= k < txs.len() && month_index(txs[k].date.year as int, txs[k].date.month as int) == x,
{
    let m = c.monthly@;
    let ks = m.map_values(|p: ((i32, u32), Stats)| month_index(p.0.0 as int, p.0.1 as int));
    assert forall|j: int| 0 <= j < m.len() implies 1 <= (#[trigger] m[j]).0.1 <= 12
        && exists|k: int| 0 <= k < txs.len() && txs[k].date.year == m[j].0.0 && txs[k].date.month == m[j].0.1 by {
        let b = Bucket::Month(m[j].0.0, m[j].0.1);
        assert(m[j].1.describes(bucket_txs(txs, b, today)));
        lemma_bucket_bounds(txs, b, today);
        let k = choose|k: int| 0 <= k < txs.len() && in_bucket(#[trigger] txs[k], b, today);
        assert(txs[k].date.wf());
    }
    assert forall|x: int| ks.contains(x) <==> exists|k: int|
        0 <= k < txs.len() && month_index(txs[k].date.year as int, txs[k].date.month as int) == x by {
        if ks.contains(x) {
            let j = choose|j: int| 0 <= j < ks.len() && ks[j] == x;
            assert(1 <= m[j].0.1 <= 12);
            let k = choose|k: int| 0 <= k < txs.len() && txs[k].date.year == m[j].0.0 && txs[k].date.month == m[j].0.1;
            assert(month_index(txs[k].date.year as int, txs[k].date.month as int) == x);
        }
        if exists|k: int| 0 <= k < txs.len() && month_index(txs[k].date.year as int, txs[k].date.month as int) == x {
            let k = choose|k: int| 0 <= k < txs.len() && month_index(txs[k].date.year as int, txs[k].date.month as int) == x;
            let j = choose|j: int| 0 <= j < m.len() && m[j].0 == ((#[trigger] txs[k]).date.year, txs[k].date.month);
            assert(ks[j] == x);
        }
    }
}


/// Breakdowns that add up to the total and list amounts in non-increasing
/// order.
pub open spec fn sound_breakdowns(s: Stats) -> bool {
    &&& sum_values(entries_view(s.by_category@)) == s.total
    &&& sum_values(entries_view(s.by_payment_method@)) == s.total
    &&& sum_values(entries_view(s.by_note@)) == s.total
    &&& sorted_desc(entries_view(s.by_category@))
    &&& sorted_desc(entries_view(s.by_payment_method@))
    &&& sorted_desc(entries_view(s.by_note@))
}

proof fn lemma_windows_sound(out: Seq<(i64, Stats)>, windows: Seq<i64>, txs: Seq<Transaction>, today: int)
    requires
        windows_described(out, windows, txs, today),
    ensures
        forall|j: int| 0 <= j < out.len() ==> sound_breakdowns(#[trigger] out[j].1),
    decreases windows.len(),
{
    if windows.len() > 0 {
        let bt = bucket_txs(txs, Bucket::Window(windows.last()), today);
        if bt.len() > 0 {
            lemma_windows_sound(out.drop_last(), windows.drop_last(), txs, today);
            lemma_stats_breakdowns(out.last().1, bt);
            assert forall|j: int| 0 <= j < out.len() implies sound_breakdowns(#[trigger] out[j].1) by {
                if j < out.len() - 1 {
                    assert(out[j] == out.drop_last()[j]);
                }
            }
        } else {
            lemma_windows_sound(out, windows.drop_last(), txs, today);
        }
    }
}

/// In every bucket of a result, each breakdown adds up to the bucket's
/// total and lists its amounts in non-increasing order.
pub proof fn lemma_collection_breakdowns(
    c: StatsCollection,
    txs: Seq<Transaction>,
    today: int,
    windows: Seq<i64>,
)
    requires
        c.describes(txs, today, windows),
    ensures
        forall|j: int| 0 <= j < c.yearly@.len() ==> sound_breakdowns(#[trigger] c.yearly@[j].1),
        forall|j: int| 0 <= j < c.monthly@.len() ==> sound_breakdowns(#[trigger] c.monthly@[j].1),
        forall|j: int| 0 <= j < c.rolling@.len() ==> sound_breakdowns(#[trigger] c.rolling@[j].1),
{
    assert forall|j: int| 0 <= j < c.yearly@.len() implies sound_breakdowns(#[trigger] c.yearly@[j].1) by {
        lemma_stats_breakdowns(c.yearly@[j].1, bucket_txs(txs, Bucket::Year(c.yearly@[j].0), today));
    }
    assert forall|j: int| 0 <= j < c.monthly@.len() implies sound_breakdowns(#[trigger] c.monthly@[j].1) by {
        let k = c.monthly@[j].0;
        lemma_stats_breakdowns(c.monthly@[j].1, bucket_txs(txs, Bucket::Month(k.0, k.1), today));
    }
    lemma_windows_sound(c.rolling@, windows, txs, today);
}

} // verus!
