use spending_stats::{days_in_month, days_in_year, year_as_i32, Date};

fn d(y: i32, m: u32, day: u32) -> Date {
    Date::from_ymd(y, m, day).unwrap()
}

#[test]
fn from_ymd_accepts_real_dates_only() {
    assert!(Date::from_ymd(2024, 2, 29).is_some());
    assert!(Date::from_ymd(2023, 2, 29).is_none());
    assert!(Date::from_ymd(2023, 4, 31).is_none());
    assert!(Date::from_ymd(2023, 13, 1).is_none());
    assert!(Date::from_ymd(2023, 0, 1).is_none());
    assert!(Date::from_ymd(2023, 1, 0).is_none());
    assert!(Date::from_ymd(400000, 1, 1).is_none());
    assert_eq!(Date::from_ymd(-4, 2, 29), Some(Date { year: -4, month: 2, day: 29 }));
}

#[test]
fn february_of_leap_years_has_29_days() {
    assert_eq!(days_in_month(d(2024, 2, 10)), 29);
    assert_eq!(days_in_month(d(2000, 2, 1)), 29);
    assert_eq!(days_in_month(d(2024, 2, 29)), 29);
}

#[test]
fn february_of_other_years_has_28_days() {
    assert_eq!(days_in_month(d(2023, 2, 10)), 28);
    assert_eq!(days_in_month(d(1900, 2, 1)), 28);
    assert_eq!(days_in_month(d(2100, 2, 28)), 28);
}

#[test]
fn month_lengths() {
    assert_eq!(days_in_month(d(2023, 1, 31)), 31);
    assert_eq!(days_in_month(d(2023, 4, 15)), 30);
    assert_eq!(days_in_month(d(2023, 12, 1)), 31);
    assert_eq!(days_in_month(d(-1, 12, 25)), 31);
}

#[test]
fn year_lengths() {
    assert_eq!(days_in_year(d(2024, 7, 4)), 366);
    assert_eq!(days_in_year(d(2023, 7, 4)), 365);
    assert_eq!(days_in_year(d(1900, 1, 1)), 365);
    assert_eq!(days_in_year(d(2000, 12, 31)), 366);
}

#[test]
fn day_numbers_follow_the_calendar() {
    assert_eq!(d(1, 1, 1).number(), 1);
    assert_eq!(d(2, 1, 1).number(), 366);
    assert_eq!(d(1970, 1, 1).number(), 719_163);
    assert_eq!(d(0, 1, 1).number(), -365);
    assert_eq!(d(2024, 3, 1).number() - d(2024, 2, 1).number(), 29);
}

#[test]
fn december_rolls_into_january() {
    let dec = d(2023, 12, 5);
    let next = dec.next_month_start();
    assert_eq!(next, Date { year: 2024, month: 1, day: 1 });
    assert_eq!(next.number() - dec.month_start().number(), 31);
    assert_eq!(d(2023, 5, 5).next_month_start(), Date { year: 2023, month: 6, day: 1 });
}

#[test]
fn years_of_era() {
    assert_eq!(year_as_i32((true, 2024)), 2024);
    assert_eq!(year_as_i32((false, 44)), -44);
    assert_eq!(year_as_i32((false, 0)), 0);
}
