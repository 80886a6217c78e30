//! Spending statistics: folds dated transactions into yearly, monthly and
//! rolling-window buckets, each with per-key breakdowns and a calendar-aware
//! period length for daily averages.

pub mod breakdown;
pub mod category;
pub mod collection;
pub mod date;
pub mod parse;
pub mod stats;
pub mod text;

pub use category::{Category, Key};
pub use date::{days_in_month, days_in_year, year_as_i32, Date};
pub use stats::{Field, Stats, TempStats, Transaction};
pub use collection::{get_stats, Bucket, StatsCollection, TempStatsCollection};
pub use text::escape_string_for_tex;
pub use parse::{date_from_parsed, parse_transactions, read_transactions, sort_by_date, ParseError, ParseErrorKind};
