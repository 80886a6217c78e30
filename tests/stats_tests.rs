use spending_stats::{Category, Date, TempStats, Transaction};

fn tx(value: i64, date: (i32, u32, u32), category: &str, pm: &str, note: &str) -> Transaction {
    let d = Date::from_ymd(date.0, date.1, date.2).unwrap();
    Transaction {
        value,
        date: d,
        category: Category::from(category),
        end_date: d,
        payment_method: pm.to_string(),
        note: note.to_string(),
    }
}

#[test]
fn update_adds_to_every_breakdown() {
    let mut ts = TempStats::new();
    ts.update(&tx(100, (2024, 1, 10), "Grocery", "Card", "milk"));
    ts.update(&tx(250, (2024, 1, 11), "Grocery", "Cash", ""));
    ts.update(&tx(-30, (2024, 1, 12), "Rent", "Card", "milk"));
    assert_eq!(ts.total, 320);
    assert_eq!(ts.transaction_count, 3);
    assert_eq!(ts.by_category, vec![(Category::Grocery, 350), (Category::Rent, -30)]);
    assert_eq!(
        ts.by_payment_method,
        vec![("Card".to_string(), 70), ("Cash".to_string(), 250)]
    );
    assert_eq!(ts.by_note, vec![("milk".to_string(), 70), (String::new(), 250)]);
}

#[test]
fn subtotals_add_up_to_the_total() {
    let mut ts = TempStats::new();
    let values = [(5, "Books"), (-7, "Gift"), (12, "Books"), (40, "Travel"), (3, "Gift")];
    for (v, c) in values.iter() {
        ts.update(&tx(*v, (2023, 6, 1), c, "Card", "x"));
    }
    let sum: i64 = ts.by_category.iter().map(|e| e.1).sum();
    assert_eq!(sum, ts.total);
    let stats = ts.into_stats();
    let sum: i64 = stats.by_category.iter().map(|e| e.1).sum();
    assert_eq!(sum, stats.total);
    assert_eq!(stats.total, 53);
}

#[test]
fn into_stats_sorts_by_amount_descending() {
    let mut ts = TempStats::new();
    ts.update(&tx(10, (2023, 6, 1), "Books", "A", "n1"));
    ts.update(&tx(30, (2023, 6, 1), "Gift", "B", "n2"));
    ts.update(&tx(20, (2023, 6, 1), "Rent", "C", "n3"));
    ts.update(&tx(30, (2023, 6, 1), "Sport", "D", "n4"));
    ts.calc_averages(30);
    let s = ts.into_stats();
    assert_eq!(
        s.by_category,
        vec![(Category::Gift, 30), (Category::Sport, 30), (Category::Rent, 20), (Category::Books, 10)]
    );
    assert_eq!(s.period_days, 30);
    for w in s.by_payment_method.windows(2) {
        assert!(w[0].1 >= w[1].1);
    }
}

#[test]
fn calc_averages_records_the_period() {
    let mut ts = TempStats::new();
    ts.update(&tx(700, (2023, 6, 1), "Books", "A", ""));
    ts.calc_averages(7);
    assert_eq!(ts.period_days, 7);
    assert_eq!(ts.total, 700);
}
