use spending_stats::{parse_transactions, read_transactions, Category, Date, ParseErrorKind};

fn date(y: i32, m: u32, d: u32) -> Date {
    Date::from_ymd(y, m, d).unwrap()
}

#[test]
fn reads_all_fields() {
    let text = "value;date;category;end;method;note\n12.50;03/02/2024;Rent;03/02/2024; Card ; March rent \n";
    let v = parse_transactions(text).unwrap();
    assert_eq!(v.len(), 1);
    assert_eq!(v[0].value, 1250);
    assert_eq!(v[0].date, date(2024, 2, 3));
    assert_eq!(v[0].end_date, date(2024, 2, 3));
    assert_eq!(v[0].category, Category::Rent);
    assert_eq!(v[0].payment_method, "Card");
    assert_eq!(v[0].note, "March rent");
}

#[test]
fn amounts() {
    let text = "h\n7\n-3.25\n1.5\n1.05\n-0.5\n2.x\n1.50\n-1.05\n3.+7\n";
    let v = parse_transactions(text).unwrap();
    let values: Vec<i64> = v.iter().map(|t| t.value).collect();
    assert_eq!(values, vec![700, -325, 150, 105, -50, 200, 150, -105, 370]);
}

#[test]
fn missing_fields_take_defaults() {
    let v = parse_transactions("header\r\n4\r\n").unwrap();
    assert_eq!(v.len(), 1);
    assert_eq!(v[0].value, 400);
    assert_eq!(v[0].date, date(1970, 1, 1));
    assert_eq!(v[0].category, Category::Unknown);
    assert_eq!(v[0].payment_method, "");
    assert_eq!(v[0].note, "");
}

#[test]
fn unknown_categories_become_labels() {
    let v = parse_transactions("h\n1;02/02/2024;Food;02/02/2024").unwrap();
    assert_eq!(v[0].category, Category::Miscellaneous("Food".to_string()));
}

#[test]
fn header_only_gives_nothing() {
    assert!(parse_transactions("value;date").unwrap().is_empty());
    assert!(parse_transactions("").unwrap().is_empty());
}

#[test]
fn bad_amount_is_reported_with_its_line() {
    let e = parse_transactions("h\n1\nabc\n").unwrap_err();
    assert_eq!(e.kind, ParseErrorKind::BadAmount);
    assert_eq!(e.line, 3);
}

#[test]
fn long_cents_are_rejected() {
    let e = parse_transactions("h\n1.123\n").unwrap_err();
    assert_eq!(e.kind, ParseErrorKind::CentsTooLong);
    assert_eq!(e.line, 2);
}

#[test]
fn bad_dates_are_rejected() {
    let e = parse_transactions("h\n1;2024-01-01\n").unwrap_err();
    assert_eq!(e.kind, ParseErrorKind::BadDate);
    let e = parse_transactions("h\n1;01/01/2024;Rent;31/02/2024\n").unwrap_err();
    assert_eq!(e.kind, ParseErrorKind::BadDate);
}

#[test]
fn date_after_end_date_is_rejected() {
    let e = parse_transactions("h\n1;05/01/2024;Rent;04/01/2024\n").unwrap_err();
    assert_eq!(e.kind, ParseErrorKind::DateAfterEnd);
    assert_eq!(e.line, 2);
}

#[test]
fn read_transactions_orders_by_date() {
    let v = read_transactions("h\n1;05/01/2024;Rent;05/01/2024\n2;03/01/2024;Gift;03/01/2024\n3;05/01/2024;Gift;06/01/2024\n4;01/01/2024;Gift;09/01/2024\n").unwrap();
    let values: Vec<i64> = v.iter().map(|t| t.value).collect();
    assert_eq!(values, vec![400, 200, 100, 300]);
}

#[test]
fn date_without_end_date_is_after_the_default_end() {
    let e = parse_transactions("h\n1;01/01/2024\n").unwrap_err();
    assert_eq!(e.kind, ParseErrorKind::DateAfterEnd);
    assert_eq!(e.line, 2);
    let v = parse_transactions("h\n1;01/01/1970\n").unwrap();
    assert_eq!(v[0].end_date, date(1970, 1, 1));
}
