use spending_stats::{
    get_stats, Category, Date, Stats, StatsCollection, TempStats, TempStatsCollection, Transaction,
};

fn date(y: i32, m: u32, d: u32) -> Date {
    Date::from_ymd(y, m, d).unwrap()
}

fn tx(value: i64, d: Date, category: &str) -> Transaction {
    Transaction {
        value,
        date: d,
        category: Category::from(category),
        end_date: d,
        payment_method: "Card".to_string(),
        note: String::new(),
    }
}

fn month(c: &StatsCollection, y: i32, m: u32) -> &Stats {
    &c.monthly.iter().find(|e| e.0 == (y, m)).unwrap().1
}

fn window(c: &StatsCollection, n: i64) -> Option<&Stats> {
    c.rolling.iter().find(|e| e.0 == n).map(|e| &e.1)
}

fn food() -> Category {
    Category::Miscellaneous("Food".to_string())
}

#[test]
fn january_and_february_example() {
    let txs = vec![
        tx(100, date(2024, 1, 10), "Food"),
        tx(250, date(2024, 1, 20), "Food"),
        tx(500, date(2024, 2, 1), "Rent"),
    ];
    let c = get_stats(&txs, date(2024, 2, 15), &vec![7, 30, 365]);
    let jan = month(&c, 2024, 1);
    assert_eq!(jan.total, 350);
    assert_eq!(jan.by_category, vec![(food(), 350)]);
    // the data start on January 10: the period is January 10 to 31
    assert_eq!(jan.period_days, 22);
    let feb = month(&c, 2024, 2);
    assert_eq!(feb.total, 500);
    assert_eq!(feb.by_category, vec![(Category::Rent, 500)]);
    assert_eq!(feb.period_days, 15);
    let per_day = feb.total as f64 / feb.period_days as f64 / 100.0;
    assert!((per_day - 500.0 / 15.0 / 100.0).abs() < 1e-12);
    assert_eq!(c.monthly.len(), 2);
}

#[test]
fn january_full_month_when_data_predate_it() {
    let txs = vec![
        tx(40, date(2023, 12, 20), "Gift"),
        tx(100, date(2024, 1, 10), "Food"),
        tx(250, date(2024, 1, 20), "Food"),
        tx(500, date(2024, 2, 1), "Rent"),
    ];
    let c = get_stats(&txs, date(2024, 2, 15), &vec![7, 30, 365]);
    let jan = month(&c, 2024, 1);
    assert_eq!(jan.total, 350);
    assert_eq!(jan.by_category, vec![(food(), 350)]);
    assert_eq!(jan.period_days, 31);
    let per_day = jan.total as f64 / jan.period_days as f64 / 100.0;
    assert!((per_day - 350.0 / 31.0 / 100.0).abs() < 1e-12);
    assert_eq!(month(&c, 2024, 2).period_days, 15);
}

#[test]
fn december_bucket_ends_with_the_year() {
    let txs = vec![tx(10, date(2022, 11, 3), "Gift"), tx(20, date(2022, 12, 31), "Gift")];
    let c = get_stats(&txs, date(2023, 3, 1), &vec![]);
    let dec = month(&c, 2022, 12);
    assert_eq!(dec.total, 20);
    assert_eq!(dec.period_days, 31);
    assert_eq!(c.monthly.iter().map(|e| e.0).collect::<Vec<_>>(), vec![(2022, 11), (2022, 12)]);
}

#[test]
fn years_are_ascending_and_clipped() {
    let txs = vec![
        tx(300, date(2024, 3, 1), "Rent"),
        tx(100, date(2022, 6, 1), "Rent"),
        tx(200, date(2023, 1, 5), "Rent"),
    ];
    let c = get_stats(&txs, date(2024, 3, 10), &vec![]);
    let years: Vec<i32> = c.yearly.iter().map(|e| e.0).collect();
    assert_eq!(years, vec![2022, 2023, 2024]);
    // 2022 starts with the data on June 1
    assert_eq!(c.yearly[0].1.period_days, 214);
    assert_eq!(c.yearly[1].1.period_days, 365);
    // 2024 runs to today, March 10, inclusive
    assert_eq!(c.yearly[2].1.period_days, 70);
    let months: Vec<(i32, u32)> = c.monthly.iter().map(|e| e.0).collect();
    assert_eq!(months, vec![(2022, 6), (2023, 1), (2024, 3)]);
}

#[test]
fn windows_include_at_most_n_days_back() {
    let today = date(2024, 5, 20);
    let txs = vec![
        tx(1, date(2024, 5, 20), "Gift"),
        tx(2, date(2024, 5, 13), "Gift"),
        tx(4, date(2024, 5, 12), "Gift"),
        tx(8, date(2024, 4, 20), "Gift"),
        tx(16, date(2023, 1, 1), "Gift"),
    ];
    let c = get_stats(&txs, today, &vec![7, 30, 365]);
    let w7 = window(&c, 7).unwrap();
    assert_eq!(w7.total, 3);
    assert_eq!(w7.transaction_count, 2);
    assert_eq!(w7.period_days, 7);
    assert_eq!(window(&c, 30).unwrap().total, 15);
    assert_eq!(window(&c, 365).unwrap().total, 15);
    assert_eq!(c.rolling.iter().map(|e| e.0).collect::<Vec<_>>(), vec![7, 30, 365]);
}

#[test]
fn empty_windows_are_left_out() {
    let txs = vec![tx(5, date(2020, 1, 1), "Gift")];
    let c = get_stats(&txs, date(2024, 1, 1), &vec![7, 30]);
    assert!(c.rolling.is_empty());
    assert_eq!(c.yearly.len(), 1);
}

#[test]
fn future_transactions_get_at_least_one_day() {
    let txs = vec![tx(5, date(2025, 6, 1), "Gift")];
    let c = get_stats(&txs, date(2024, 1, 1), &vec![]);
    assert_eq!(c.yearly[0].1.period_days, 1);
    assert_eq!(c.monthly[0].1.period_days, 1);
}

#[test]
fn same_input_gives_the_same_result() {
    let txs = vec![
        tx(100, date(2024, 1, 10), "Food"),
        tx(250, date(2024, 1, 20), "Books"),
        tx(250, date(2024, 1, 21), "Food"),
        tx(500, date(2024, 2, 1), "Rent"),
    ];
    let a = get_stats(&txs, date(2024, 2, 15), &vec![7, 30, 365]);
    let b = get_stats(&txs, date(2024, 2, 15), &vec![7, 30, 365]);
    assert_eq!(format!("{:?}", a), format!("{:?}", b));
}

#[test]
fn every_breakdown_sums_to_its_total() {
    let txs = vec![
        tx(100, date(2024, 1, 10), "Food"),
        tx(-20, date(2024, 1, 12), "Gift"),
        tx(250, date(2024, 1, 20), "Books"),
        tx(500, date(2024, 2, 1), "Rent"),
    ];
    let c = get_stats(&txs, date(2024, 2, 15), &vec![7, 30, 365]);
    let all = c.yearly.iter().map(|e| &e.1).chain(c.monthly.iter().map(|e| &e.1)).chain(c.rolling.iter().map(|e| &e.1));
    for s in all {
        assert_eq!(s.by_category.iter().map(|e| e.1).sum::<i64>(), s.total);
        assert_eq!(s.by_payment_method.iter().map(|e| e.1).sum::<i64>(), s.total);
        assert_eq!(s.by_note.iter().map(|e| e.1).sum::<i64>(), s.total);
        for w in s.by_category.windows(2) {
            assert!(w[0].1 >= w[1].1);
        }
        let shown: f64 = s.by_category.iter().map(|e| e.1 as f64 / 100.0).sum();
        assert!(((shown * 100.0).round() as i64 - s.total).abs() <= 1);
    }
}

fn bucket(value: i64, d: Date) -> TempStats {
    let mut ts = TempStats::new();
    ts.update(&tx(value, d, "Gift"));
    ts
}

#[test]
fn into_stats_collection_sorts_buckets() {
    let mut tsc = TempStatsCollection::new(&vec![]);
    tsc.yearly.push((2025, bucket(1, date(2025, 1, 1))));
    tsc.yearly.push((2023, bucket(2, date(2023, 1, 1))));
    tsc.yearly.push((2024, bucket(3, date(2024, 1, 1))));
    tsc.monthly.push(((2024, 2), bucket(4, date(2024, 2, 1))));
    tsc.monthly.push(((2024, 1), bucket(5, date(2024, 1, 1))));
    tsc.monthly.push(((2023, 12), bucket(6, date(2023, 12, 1))));
    let c = tsc.into_stats_collection();
    let years: Vec<(i32, i64)> = c.yearly.iter().map(|e| (e.0, e.1.total)).collect();
    assert_eq!(years, vec![(2023, 2), (2024, 3), (2025, 1)]);
    let months: Vec<((i32, u32), i64)> = c.monthly.iter().map(|e| (e.0, e.1.total)).collect();
    assert_eq!(months, vec![((2023, 12), 6), ((2024, 1), 5), ((2024, 2), 4)]);
}

#[test]
fn into_stats_collection_keeps_order_and_drops_empty_windows() {
    let tsc = TempStatsCollection::new(&vec![7, 30]);
    let c = tsc.into_stats_collection();
    assert!(c.yearly.is_empty());
    assert!(c.monthly.is_empty());
    assert!(c.rolling.is_empty());
}
