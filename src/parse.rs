use crate::category::Category;
use crate::date::{valid_ymd, Date};
use crate::stats::Transaction;
use crate::text::push_char;
use chrono::Datelike;
use chrono::NaiveDate;
use vstd::prelude::*;

verus! {

/// `s` cut at every `sep`; there is always at least one piece.
pub open spec fn split_spec(s: Seq<char>, sep: char) -> Seq<Seq<char>>
    decreases s.len(),
{
    if s.len() == 0 {
        seq![seq![]]
    } else {
        let p = split_spec(s.drop_last(), sep);
        if s.last() == sep {
            p.push(seq![])
        } else {
            p.update(p.len() - 1, p.last().push(s.last()))
        }
    }
}

proof fn lemma_split_nonempty(s: Seq<char>, sep: char)
    ensures
        split_spec(s, sep).len() >= 1,
    decreases s.len(),
{
    if s.len() > 0 {
        lemma_split_nonempty(s.drop_last(), sep);
    }
}

pub open spec fn strip_cr(x: Seq<char>) -> Seq<char> {
    if x.len() > 0 && x.last() == '\r' {
        x.drop_last()
    } else {
        x
    }
}

/// Lines of a text: ended by `\n` or `\r\n`; the last line ending is
/// optional.
pub open spec fn lines_spec(s: Seq<char>) -> Seq<Seq<char>> {
    let p = split_spec(s, '\n');
    let n = if p.last().len() == 0 { p.len() - 1 } else { p.len() as int };
    Seq::new(n as nat, |j: int| if j < p.len() - 1 { strip_cr(p[j]) } else { p[j] })
}

/// Unicode white space.
pub open spec fn is_space(c: char) -> bool {
    ||| '\t' <= c <= '\r'
    ||| c == ' '
    ||| c == '\u{85}'
    ||| c == '\u{a0}'
    ||| c == '\u{1680}'
    ||| '\u{2000}' <= c <= '\u{200a}'
    ||| c == '\u{2028}'
    ||| c == '\u{2029}'
    ||| c == '\u{202f}'
    ||| c == '\u{205f}'
    ||| c == '\u{3000}'
}

pub open spec fn trim_start(s: Seq<char>) -> Seq<char>
    decreases s.len(),
{
    if s.len() > 0 && is_space(s[0]) {
        trim_start(s.drop_first())
    } else {
        s
    }
}

pub open spec fn trim_end(s: Seq<char>) -> Seq<char>
    decreases s.len(),
{
    if s.len() > 0 && is_space(s.last()) {
        trim_end(s.drop_last())
    } else {
        s
    }
}

/// `s` without white space at either end.
pub open spec fn trim(s: Seq<char>) -> Seq<char> {
    trim_end(trim_start(s))
}

/// The characters of a text.
fn chars_of(s: &str) -> (r: Vec<char>)
    ensures
        r@ == s@,
{
    let mut r: Vec<char> = Vec::new();
    for c in it: s.chars()
        invariant
            it.seq() == s@,
            r@ == s@.subrange(0, it.index() as int),
    {
        r.push(c);
    }
    proof {
        assert(s@.subrange(0, s@.len() as int) =~= s@);
    }
    r
}

fn is_space_char(c: char) -> (r: bool)
    ensures
        r == is_space(c),
{
    ('\t' <= c && c <= '\r') || c == ' ' || c == '\u{85}' || c == '\u{a0}' || c == '\u{1680}'
        || ('\u{2000}' <= c && c <= '\u{200a}') || c == '\u{2028}' || c == '\u{2029}' || c
        == '\u{202f}' || c == '\u{205f}' || c == '\u{3000}'
}

/// Ranges of the pieces of `s[a..b]` cut at every `sep`.
fn split_range(s: &Vec<char>, a: usize, b: usize, sep: char) -> (r: Vec<(usize, usize)>)
    requires
        a <= b <= s@.len(),
    ensures
        r@.len() == split_spec(s@.subrange(a as int, b as int), sep).len(),
        forall|j: int|
            0 <= j < r@.len() ==> a <= (#[trigger] r@[j]).0 <= r@[j].1 <= b && s@.subrange(
                r@[j].0 as int,
                r@[j].1 as int,
            ) == split_spec(s@.subrange(a as int, b as int), sep)[j],
{
    let mut r: Vec<(usize, usize)> = Vec::new();
    let mut start = a;
    let mut i = a;
    while i < b
        invariant
            a <= start <= i <= b <= s@.len(),
            r@.len() + 1 == split_spec(s@.subrange(a as int, i as int), sep).len(),
            split_spec(s@.subrange(a as int, i as int), sep).last() == s@.subrange(
                start as int,
                i as int,
            ),
            forall|j: int|
                0 <= j < r@.len() ==> a <= (#[trigger] r@[j]).0 <= r@[j].1 <= b && s@.subrange(
                    r@[j].0 as int,
                    r@[j].1 as int,
                ) == split_spec(s@.subrange(a as int, i as int), sep)[j],
        decreases b - i,
    {
        let ghost p = split_spec(s@.subrange(a as int, i as int), sep);
        proof {
            assert(s@.subrange(a as int, i as int + 1).drop_last() =~= s@.subrange(a as int, i as int));
            assert(s@.subrange(a as int, i as int + 1).last() == s@[i as int]);
        }
        if s[i] == sep {
            r.push((start, i));
            start = i + 1;
            proof {
                assert(s@.subrange(start as int, i as int + 1) =~= seq![]);
            }
        } else {
            proof {
                assert(s@.subrange(start as int, i as int + 1) =~= s@.subrange(start as int, i as int).push(s@[i as int]));
            }
        }
        i += 1;
    }
    r.push((start, b));
    r
}

/// Ranges of `s[a..b]` without white space at either end.
fn trim_range(s: &Vec<char>, a: usize, b: usize) -> (r: (usize, usize))
    requires
        a <= b <= s@.len(),
    ensures
        a <= r.0 <= r.1 <= b,
        s@.subrange(r.0 as int, r.1 as int) == trim(s@.subrange(a as int, b as int)),
{
    let mut x = a;
    while x < b && is_space_char(s[x])
        invariant
            a <= x <= b <= s@.len(),
            trim_start(s@.subrange(a as int, b as int)) == trim_start(s@.subrange(x as int, b as int)),
        decreases b - x,
    {
        proof {
            assert(s@.subrange(x as int, b as int).drop_first() =~= s@.subrange(x as int + 1, b as int));
        }
        x += 1;
    }
    let mut y = b;
    while y > x && is_space_char(s[y - 1])
        invariant
            a <= x <= y <= b <= s@.len(),
            trim_end(s@.subrange(x as int, b as int)) == trim_end(s@.subrange(x as int, y as int)),
        decreases y,
    {
        proof {
            assert(s@.subrange(x as int, y as int).drop_last() =~= s@.subrange(x as int, y as int - 1));
        }
        y -= 1;
    }
    (x, y)
}


pub open spec fn is_digit(c: char) -> bool {
    '0' <= c <= '9'
}

pub open spec fn all_digits(s: Seq<char>) -> bool {
    forall|i: int| 0 <= i < s.len() ==> is_digit(#[trigger] s[i])
}

/// Value of a string of decimal digits.
pub open spec fn digits_value(s: Seq<char>) -> int
    decreases s.len(),
{
    if s.len() == 0 {
        0
    } else {
        digits_value(s.drop_last()) * 10 + (s.last() as int - '0' as int)
    }
}

/// A decimal integer with an optional sign, within `i32`.
pub open spec fn parse_i32_spec(s: Seq<char>) -> Option<int> {
    let neg = s.len() > 0 && s[0] == '-';
    let body = if s.len() > 0 && (s[0] == '-' || s[0] == '+') { s.drop_first() } else { s };
    let v = if neg { -digits_value(body) } else { digits_value(body) };
    if body.len() > 0 && all_digits(body) && i32::MIN <= v <= i32::MAX {
        Some(v)
    } else {
        None
    }
}

/// A decimal integer with an optional `+`, within `u32`.
pub open spec fn parse_u32_spec(s: Seq<char>) -> Option<int> {
    let body = if s.len() > 0 && s[0] == '+' { s.drop_first() } else { s };
    if body.len() > 0 && all_digits(body) && digits_value(body) <= u32::MAX {
        Some(digits_value(body))
    } else {
        None
    }
}

/// Why a line of transactions cannot be read.
#[derive(Clone, Copy, Debug, PartialEq, Eq, Structural)]
pub enum ParseErrorKind {
    /// The whole units of the amount are not an integer.
    BadAmount,
    /// The cents of the amount have more than two digits.
    CentsTooLong,
    /// A date is not of the form day/month/year.
    BadDate,
    /// The date is later than the end date.
    DateAfterEnd,
}

/// Digits of a cents field: its trimmed text without a leading `+`.
pub open spec fn cents_digits(c: Seq<char>) -> Seq<char> {
    let t = trim(c);
    if t.len() > 0 && t[0] == '+' {
        t.drop_first()
    } else {
        t
    }
}

/// The amount field in cents: whole units, then optionally `.` and cents.
/// Cents written with a single digit count tens of cents (`1.5` is 150);
/// with two digits they count as written (`1.05` is 105). Cents that cannot
/// be read count as none.
pub open spec fn amount_spec(f: Seq<char>) -> Result<i64, ParseErrorKind> {
    let neg = trim(f).len() > 0 && trim(f)[0] == '-';
    let parts = split_spec(f, '.');
    match parse_i32_spec(trim(parts[0])) {
        None => Err(ParseErrorKind::BadAmount),
        Some(units) => {
            let cents = if parts.len() > 1 {
                match parse_u32_spec(trim(parts[1])) {
                    Some(c) => c,
                    None => 0,
                }
            } else {
                0
            };
            if cents >= 100 {
                Err(ParseErrorKind::CentsTooLong)
            } else {
                let signed = if units < 0 || neg { -cents } else { cents };
                let one_digit = parts.len() > 1 && cents_digits(parts[1]).len() == 1;
                let scaled = if one_digit { signed * 10 } else { signed };
                Ok((units * 100 + scaled) as i64)
            }
        }
    }
}

proof fn lemma_digits_nonneg(s: Seq<char>)
    requires
        all_digits(s),
    ensures
        digits_value(s) >= 0,
    decreases s.len(),
{
    if s.len() > 0 {
        assert(is_digit(s[s.len() - 1]));
        lemma_digits_nonneg(s.drop_last());
    }
}

/// Value of the digits `s[a..b]`, capped at ten billion, if all are digits
/// and there is at least one.
fn digits_range(s: &Vec<char>, a: usize, b: usize) -> (r: Option<i64>)
    requires
        a <= b <= s@.len(),
    ensures
        r is Some <==> (b > a && all_digits(s@.subrange(a as int, b as int))),
        r matches Some(v) ==> v == if digits_value(s@.subrange(a as int, b as int))
            < 10_000_000_000 {
            digits_value(s@.subrange(a as int, b as int))
        } else {
            10_000_000_000
        },
{
    if a == b {
        return None;
    }
    let mut acc: i64 = 0;
    let mut i = a;
    while i < b
        invariant
            a <= i <= b <= s@.len(),
            all_digits(s@.subrange(a as int, i as int)),
            acc == if digits_value(s@.subrange(a as int, i as int)) < 10_000_000_000 {
                digits_value(s@.subrange(a as int, i as int))
            } else {
                10_000_000_000
            },
        decreases b - i,
    {
        let c = s[i];
        if !('0' <= c && c <= '9') {
            proof {
                assert(s@.subrange(a as int, b as int)[i - a] == c);
            }
            return None;
        }
        let d = (c as u32 - '0' as u32) as i64;
        let ghost p = s@.subrange(a as int, i as int);
        let ghost q = s@.subrange(a as int, i as int + 1);
        proof {
            assert(q.drop_last() =~= p);
            assert(q.last() == c);
            assert(all_digits(q)) by {
                assert forall|j: int| 0 <= j < q.len() implies is_digit(#[trigger] q[j]) by {
                    if j < p.len() {
                        assert(q[j] == p[j]);
                    }
                }
            }
            lemma_digits_nonneg(p);
        }
        if acc < 10_000_000_000 {
            let next = acc * 10 + d;
            acc = if next < 10_000_000_000 { next } else { 10_000_000_000 };
        }
        i += 1;
    }
    Some(acc)
}

/// `s[a..b]` read as an `i32`.
fn parse_i32_range(s: &Vec<char>, a: usize, b: usize) -> (r: Option<i32>)
    requires
        a <= b <= s@.len(),
    ensures
        r matches Some(v) ==> parse_i32_spec(s@.subrange(a as int, b as int)) == Some(v as int),
        r is None ==> parse_i32_spec(s@.subrange(a as int, b as int)) is None,
{
    let ghost w = s@.subrange(a as int, b as int);
    let mut start = a;
    let mut neg = false;
    if a < b && (s[a] == '-' || s[a] == '+') {
        neg = s[a] == '-';
        start = a + 1;
        proof {
            assert(w.drop_first() =~= s@.subrange(a as int + 1, b as int));
        }
    }
    match digits_range(s, start, b) {
        None => None,
        Some(v) => {
            proof {
                lemma_digits_nonneg(s@.subrange(start as int, b as int));
            }
            if neg {
                if v <= 2147483648 {
                    Some((0 - v) as i32)
                } else {
                    None
                }
            } else {
                if v <= 2147483647 {
                    Some(v as i32)
                } else {
                    None
                }
            }
        },
    }
}

/// `s[a..b]` read as a `u32`.
fn parse_u32_range(s: &Vec<char>, a: usize, b: usize) -> (r: Option<u32>)
    requires
        a <= b <= s@.len(),
    ensures
        r matches Some(v) ==> parse_u32_spec(s@.subrange(a as int, b as int)) == Some(v as int),
        r is None ==> parse_u32_spec(s@.subrange(a as int, b as int)) is None,
{
    let ghost w = s@.subrange(a as int, b as int);
    let mut start = a;
    if a < b && s[a] == '+' {
        start = a + 1;
        proof {
            assert(w.drop_first() =~= s@.subrange(a as int + 1, b as int));
        }
    }
    match digits_range(s, start, b) {
        None => None,
        Some(v) => {
            proof {
                lemma_digits_nonneg(s@.subrange(start as int, b as int));
            }
            if v <= 4294967295 {
                Some(v as u32)
            } else {
                None
            }
        },
    }
}

/// The amount field `s[a..b]` in cents.
fn parse_amount(s: &Vec<char>, a: usize, b: usize) -> (r: Result<i64, ParseErrorKind>)
    requires
        a <= b <= s@.len(),
    ensures
        r == amount_spec(s@.subrange(a as int, b as int)),
{
    let ghost f = s@.subrange(a as int, b as int);
    let (ta, tb) = trim_range(s, a, b);
    let negative = ta < tb && s[ta] == '-';
    proof {
        if ta < tb {
            assert(trim(f)[0] == s@[ta as int]);
        }
    }
    let parts = split_range(s, a, b, '.');
    proof {
        lemma_split_nonempty(f, '.');
    }
    let (ua, ub) = trim_range(s, parts[0].0, parts[0].1);
    let units = match parse_i32_range(s, ua, ub) {
        None => {
            return Err(ParseErrorKind::BadAmount);
        },
        Some(u) => u,
    };
    let mut cents: u32 = 0;
    let mut one_digit = false;
    if parts.len() > 1 {
        let (ca, cb) = trim_range(s, parts[1].0, parts[1].1);
        one_digit = cb - ca == 1 || (cb - ca == 2 && s[ca] == '+');
        proof {
            let t = s@.subrange(ca as int, cb as int);
            if t.len() > 0 {
                assert(t[0] == s@[ca as int]);
            }
            assert(t.len() > 0 && t[0] == '+' ==> t.drop_first().len() == t.len() - 1);
        }
        match parse_u32_range(s, ca, cb) {
            Some(c) => {
                cents = c;
            },
            None => {},
        }
    }
    if cents >= 100 {
        return Err(ParseErrorKind::CentsTooLong);
    }
    let signed: i64 = if units < 0 || negative { 0 - cents as i64 } else { cents as i64 };
    assert(cents < 100);
    let scaled: i64 = if one_digit { signed * 10 } else { signed };
    Ok(units as i64 * 100 + scaled)
}


/// What chrono reads from a text as a date written day/month/year.
pub uninterp spec fn dmy_of(s: Seq<char>) -> Option<(i32, u32, u32)>;

/// Relies on chrono's `NaiveDate::parse_from_str` with the format
/// `%d/%m/%Y`, which reads a date from the text alone, and on `Datelike`'s
/// `year`, `month` and `day` to take it apart.
#[verifier::external_body]
fn parse_dmy(s: &str) -> (r: Option<(i32, u32, u32)>)
    ensures
        r == dmy_of(s@),
{
    NaiveDate::parse_from_str(s, "%d/%m/%Y").ok().map(|d| (d.year(), d.month(), d.day()))
}

pub open spec fn date_of_parsed(p: Option<(i32, u32, u32)>) -> Option<Date> {
    match p {
        Some((y, m, d)) => if valid_ymd(y as int, m as int, d as int) {
            Some(Date { year: y, month: m, day: d })
        } else {
            None
        },
        None => None,
    }
}

/// The date of a parsed day/month/year, if it is a supported date.
pub fn date_from_parsed(p: Option<(i32, u32, u32)>) -> (r: Option<Date>)
    ensures
        r == date_of_parsed(p),
{
    match p {
        Some((y, m, d)) => Date::from_ymd(y, m, d),
        None => None,
    }
}

/// Date a transaction has when its line gives none.
pub open spec fn default_date() -> Date {
    Date { year: 1970, month: 1, day: 1 }
}

/// Field `i` of a line read as a date; a missing field gives the default.
pub open spec fn field_date(f: Seq<Seq<char>>, i: int) -> Option<Date> {
    if f.len() > i {
        date_of_parsed(dmy_of(trim(f[i])))
    } else {
        Some(default_date())
    }
}

/// Why a line cannot be read, if it cannot: fields are separated by `;`
/// and are the amount, the date, the category, the end date, the payment
/// method and the note.
pub open spec fn line_error(line: Seq<char>) -> Option<ParseErrorKind> {
    let f = split_spec(line, ';');
    match amount_spec(f[0]) {
        Err(k) => Some(k),
        Ok(_) => match field_date(f, 1) {
            None => Some(ParseErrorKind::BadDate),
            Some(d) => match field_date(f, 3) {
                None => Some(ParseErrorKind::BadDate),
                Some(e) => if d.num() > e.num() {
                    Some(ParseErrorKind::DateAfterEnd)
                } else {
                    None
                },
            },
        },
    }
}

/// `t` is what the line says; missing fields give the defaults.
pub open spec fn line_matches(line: Seq<char>, t: Transaction) -> bool {
    let f = split_spec(line, ';');
    &&& amount_spec(f[0]) == Ok::<i64, ParseErrorKind>(t.value)
    &&& field_date(f, 1) == Some(t.date)
    &&& field_date(f, 3) == Some(t.end_date)
    &&& if f.len() > 2 {
        t.category.named(trim(f[2]))
    } else {
        t.category == Category::Unknown
    }
    &&& t.payment_method@ == if f.len() > 4 { trim(f[4]) } else { seq![] }
    &&& t.note@ == if f.len() > 5 { trim(f[5]) } else { seq![] }
}

/// The text `s[a..b]`.
fn string_of(s: &Vec<char>, a: usize, b: usize) -> (r: String)
    requires
        a <= b <= s@.len(),
    ensures
        r@ == s@.subrange(a as int, b as int),
{
    let mut r = String::new();
    let mut i = a;
    while i < b
        invariant
            a <= i <= b <= s@.len(),
            r@ == s@.subrange(a as int, i as int),
        decreases b - i,
    {
        push_char(&mut r, s[i]);
        proof {
            assert(r@ =~= s@.subrange(a as int, i as int + 1));
        }
        i += 1;
    }
    r
}

/// Field `s[a..b]` read as a date.
fn parse_date_range(s: &Vec<char>, a: usize, b: usize) -> (r: Option<Date>)
    requires
        a <= b <= s@.len(),
    ensures
        r == date_of_parsed(dmy_of(trim(s@.subrange(a as int, b as int)))),
        r matches Some(d) ==> d.wf(),
{
    let (x, y) = trim_range(s, a, b);
    let text = string_of(s, x, y);
    date_from_parsed(parse_dmy(text.as_str()))
}

fn field_date_exec(s: &Vec<char>, fields: &Vec<(usize, usize)>, i: usize, Ghost(f): Ghost<Seq<Seq<char>>>) -> (r: Option<Date>)
    requires
        fields@.len() == f.len(),
        forall|j: int|
            0 <= j < fields@.len() ==> (#[trigger] fields@[j]).0 <= fields@[j].1 <= s@.len()
                && s@.subrange(fields@[j].0 as int, fields@[j].1 as int) == f[j],
    ensures
        r == field_date(f, i as int),
        r matches Some(d) ==> d.wf(),
{
    if i < fields.len() {
        parse_date_range(s, fields[i].0, fields[i].1)
    } else {
        Some(Date { year: 1970, month: 1, day: 1 })
    }
}

fn field_text(s: &Vec<char>, fields: &Vec<(usize, usize)>, i: usize, Ghost(f): Ghost<Seq<Seq<char>>>) -> (r: String)
    requires
        fields@.len() == f.len(),
        forall|j: int|
            0 <= j < fields@.len() ==> (#[trigger] fields@[j]).0 <= fields@[j].1 <= s@.len()
                && s@.subrange(fields@[j].0 as int, fields@[j].1 as int) == f[j],
    ensures
        r@ == if f.len() > i { trim(f[i as int]) } else { seq![] },
{
    if i < fields.len() {
        let (x, y) = trim_range(s, fields[i].0, fields[i].1);
        string_of(s, x, y)
    } else {
        String::new()
    }
}

/// The transaction on the line `s[a..b]`.
fn parse_line(s: &Vec<char>, a: usize, b: usize) -> (r: Result<Transaction, ParseErrorKind>)
    requires
        a <= b <= s@.len(),
    ensures
        r matches Ok(t) ==> line_error(s@.subrange(a as int, b as int)) is None && line_matches(
            s@.subrange(a as int, b as int),
            t,
        ),
        r matches Ok(t) ==> t.date.wf() && t.end_date.wf(),
        r matches Err(k) ==> line_error(s@.subrange(a as int, b as int)) == Some(k),
{
    let ghost line = s@.subrange(a as int, b as int);
    let ghost f = split_spec(line, ';');
    let fields = split_range(s, a, b, ';');
    proof {
        lemma_split_nonempty(line, ';');
    }
    let value = match parse_amount(s, fields[0].0, fields[0].1) {
        Err(k) => {
            return Err(k);
        },
        Ok(v) => v,
    };
    let date = match field_date_exec(s, &fields, 1, Ghost(f)) {
        None => {
            return Err(ParseErrorKind::BadDate);
        },
        Some(d) => d,
    };
    let end_date = match field_date_exec(s, &fields, 3, Ghost(f)) {
        None => {
            return Err(ParseErrorKind::BadDate);
        },
        Some(d) => d,
    };
    if date.number() > end_date.number() {
        return Err(ParseErrorKind::DateAfterEnd);
    }
    let category = if fields.len() > 2 {
        let name = field_text(s, &fields, 2, Ghost(f));
        Category::from(name.as_str())
    } else {
        Category::Unknown
    };
    let payment_method = field_text(s, &fields, 4, Ghost(f));
    let note = field_text(s, &fields, 5, Ghost(f));
    Ok(Transaction { value, date, category, end_date, payment_method, note })
}


/// A line that cannot be read, with its number in the text (the header is
/// line 1).
#[derive(Clone, Copy, Debug, PartialEq, Eq, Structural)]
pub struct ParseError {
    pub kind: ParseErrorKind,
    pub line: usize,
}

/// The lines after the header line.
pub open spec fn body_lines(c: Seq<char>) -> Seq<Seq<char>> {
    let l = lines_spec(c);
    if l.len() == 0 {
        l
    } else {
        l.drop_first()
    }
}

/// The transactions of a text with a header line and then one transaction
/// per line, in the order of the lines; or the first line that cannot be
/// read.
pub fn parse_transactions(content: &str) -> (r: Result<Vec<Transaction>, ParseError>)
    ensures
        r is Ok <==> forall|i: int|
            0 <= i < body_lines(content@).len() ==> line_error(#[trigger] body_lines(content@)[i]) is None,
        r matches Ok(v) ==> v@.len() == body_lines(content@).len() && forall|i: int|
            0 <= i < v@.len() ==> line_matches(#[trigger] body_lines(content@)[i], v@[i]),
        r matches Ok(v) ==> forall|i: int| 0 <= i < v@.len() ==> (#[trigger] v@[i]).date.wf(),
        r matches Err(e) ==> 2 <= e.line && e.line - 2 < body_lines(content@).len() && line_error(
            body_lines(content@)[e.line - 2],
        ) == Some(e.kind) && forall|j: int|
            0 <= j < e.line - 2 ==> line_error(#[trigger] body_lines(content@)[j]) is None,
{
    let s = chars_of(content);
    let ghost p = split_spec(content@, '\n');
    let ghost ls = lines_spec(content@);
    let ghost body = body_lines(content@);
    let pieces = split_range(&s, 0, s.len(), '\n');
    proof {
        assert(s@.subrange(0, s@.len() as int) =~= content@);
        lemma_split_nonempty(content@, '\n');
    }
    let np = pieces.len();
    let n = if pieces[np - 1].0 == pieces[np - 1].1 { np - 1 } else { np };
    assert(n == ls.len());
    let mut out: Vec<Transaction> = Vec::new();
    let mut j: usize = 1;
    while j < n
        invariant
            p == split_spec(content@, '\n'),
            ls == lines_spec(content@),
            body == body_lines(content@),
            n == ls.len(),
            np == p.len() == pieces@.len(),
            n <= np,
            1 <= j,
            j <= n || (n == 0 && j == 1),
            ls.len() > 0 ==> body == ls.drop_first(),
            out@.len() == j - 1,
            forall|i: int|
                0 <= i < np ==> (#[trigger] pieces@[i]).0 <= pieces@[i].1 <= s@.len()
                    && s@.subrange(pieces@[i].0 as int, pieces@[i].1 as int) == p[i],
            forall|i: int| 0 <= i < j - 1 ==> line_error(#[trigger] body[i]) is None,
            forall|i: int| 0 <= i < j - 1 ==> line_matches(#[trigger] body[i], out@[i]),
            forall|i: int| 0 <= i < out@.len() ==> (#[trigger] out@[i]).date.wf(),
        decreases n - j,
    {
        let a = pieces[j].0;
        let mut b = pieces[j].1;
        proof {
            assert(ls[j as int] == if (j as int) < p.len() - 1 {
                strip_cr(p[j as int])
            } else {
                p[j as int]
            });
            if b > a {
                assert(p[j as int].last() == s@[b - 1]);
            }
        }
        if j + 1 < np && b > a && s[b - 1] == '\r' {
            b = b - 1;
            proof {
                assert(s@.subrange(a as int, b as int) =~= p[j as int].drop_last());
            }
        }
        assert(s@.subrange(a as int, b as int) == ls[j as int]);
        assert(body[j - 1] == ls[j as int]);
        match parse_line(&s, a, b) {
            Err(k) => {
                assert(line_error(body[j - 1]) == Some(k));
                return Err(ParseError { kind: k, line: j + 1 });
            },
            Ok(t) => {
                out.push(t);
            },
        }
        j += 1;
    }
    proof {
        if n == 0 {
            assert(body.len() == 0);
        } else {
            assert(j == n);
            assert(body.len() == n - 1);
        }
        assert(out@.len() == body.len());
    }
    Ok(out)
}


/// `x` placed after every transaction of `q` dated on or before it.
pub open spec fn insert_by_date(q: Seq<Transaction>, x: Transaction) -> Seq<Transaction>
    decreases q.len(),
{
    if q.len() == 0 {
        seq![x]
    } else if q.last().date.num() <= x.date.num() {
        q.push(x)
    } else {
        insert_by_date(q.drop_last(), x).push(q.last())
    }
}

/// Transactions in date order; those of the same day keep their order.
pub open spec fn sort_by_date_spec(v: Seq<Transaction>) -> Seq<Transaction>
    decreases v.len(),
{
    if v.len() == 0 {
        v
    } else {
        insert_by_date(sort_by_date_spec(v.drop_last()), v.last())
    }
}

pub open spec fn sorted_by_date(q: Seq<Transaction>) -> bool {
    forall|i: int, j: int| 0 <= i < j < q.len() ==> q[i].date.num() <= q[j].date.num()
}

proof fn lemma_insert_by_date_bounded(q: Seq<Transaction>, x: Transaction, m: int)
    requires
        forall|i: int| 0 <= i < q.len() ==> q[i].date.num() <= m,
        x.date.num() <= m,
    ensures
        forall|i: int| 0 <= i < insert_by_date(q, x).len() ==> insert_by_date(q, x)[i].date.num() <= m,
        insert_by_date(q, x).len() == q.len() + 1,
    decreases q.len(),
{
    if q.len() > 0 && q.last().date.num() > x.date.num() {
        lemma_insert_by_date_bounded(q.drop_last(), x, m);
    }
}

proof fn lemma_insert_by_date_sorted(q: Seq<Transaction>, x: Transaction)
    requires
        sorted_by_date(q),
    ensures
        sorted_by_date(insert_by_date(q, x)),
        insert_by_date(q, x).len() == q.len() + 1,
    decreases q.len(),
{
    if q.len() > 0 && q.last().date.num() > x.date.num() {
        let p = q.drop_last();
        lemma_insert_by_date_sorted(p, x);
        lemma_insert_by_date_bounded(p, x, q.last().date.num());
    }
}

proof fn lemma_sort_by_date_sorted(v: Seq<Transaction>)
    ensures
        sorted_by_date(sort_by_date_spec(v)),
        sort_by_date_spec(v).len() == v.len(),
    decreases v.len(),
{
    if v.len() > 0 {
        lemma_sort_by_date_sorted(v.drop_last());
        lemma_insert_by_date_sorted(sort_by_date_spec(v.drop_last()), v.last());
    }
}

proof fn lemma_insert_by_date_at(q: Seq<Transaction>, x: Transaction, p: int)
    requires
        0 <= p <= q.len(),
        forall|j: int| 0 <= j < p ==> q[j].date.num() <= x.date.num(),
        forall|j: int| p <= j < q.len() ==> q[j].date.num() > x.date.num(),
    ensures
        insert_by_date(q, x) == q.insert(p, x),
    decreases q.len(),
{
    if q.len() == 0 {
        assert(q.insert(p, x) =~= seq![x]);
    } else if q.last().date.num() <= x.date.num() {
        assert(q.insert(p, x) =~= q.push(x));
    } else {
        lemma_insert_by_date_at(q.drop_last(), x, p);
        assert(q.drop_last().insert(p, x).push(q.last()) =~= q.insert(p, x));
    }
}

/// The transactions in date order; those of the same day keep their order.
pub fn sort_by_date(v: Vec<Transaction>) -> (r: Vec<Transaction>)
    requires
        forall|i: int| 0 <= i < v@.len() ==> (#[trigger] v@[i]).date.wf(),
    ensures
        r@ == sort_by_date_spec(v@),
{
    let ghost v0 = v@;
    let mut rest = v;
    let mut out: Vec<Transaction> = Vec::new();
    let n = rest.len();
    let mut k: usize = 0;
    while k < n
        invariant
            n == v0.len(),
            k <= n,
            forall|i: int| 0 <= i < v0.len() ==> (#[trigger] v0[i]).date.wf(),
            rest@ == v0.subrange(k as int, n as int),
            out@ == sort_by_date_spec(v0.subrange(0, k as int)),
            sorted_by_date(out@),
            forall|i: int| 0 <= i < out@.len() ==> (#[trigger] out@[i]).date.wf(),
        decreases n - k,
    {
        let x = rest.remove(0);
        assert(v0[k as int] == x);
        let xd = x.date.number();
        let ghost q = out@;
        let mut p = out.len();
        while p > 0 && out[p - 1].date.number() > xd
            invariant
                p <= out@.len(),
                q == out@,
                sorted_by_date(q),
                xd == x.date.num(),
                forall|i: int| 0 <= i < out@.len() ==> (#[trigger] out@[i]).date.wf(),
                forall|j: int| p <= j < q.len() ==> q[j].date.num() > xd,
            decreases p,
        {
            p -= 1;
        }
        proof {
            lemma_insert_by_date_at(q, x, p as int);
            let s = v0.subrange(0, k as int + 1);
            assert(s.drop_last() =~= v0.subrange(0, k as int));
            lemma_insert_by_date_sorted(q, x);
        }
        out.insert(p, x);
        proof {
            assert forall|i: int| 0 <= i < out@.len() implies (#[trigger] out@[i]).date.wf() by {
                if i < p {
                    assert(out@[i] == q[i]);
                } else if i > p {
                    assert(out@[i] == q[i - 1]);
                }
            }
        }
        k += 1;
    }
    proof {
        assert(v0.subrange(0, n as int) =~= v0);
    }
    out
}


/// The transactions of a text as `parse_transactions` reads them, put in
/// date order; or the first line that cannot be read.
pub fn read_transactions(content: &str) -> (r: Result<Vec<Transaction>, ParseError>)
    ensures
        r is Ok <==> forall|i: int|
            0 <= i < body_lines(content@).len() ==> line_error(#[trigger] body_lines(content@)[i]) is None,
        r matches Ok(v) ==> exists|u: Seq<Transaction>|
            u.len() == body_lines(content@).len() && (forall|i: int|
                0 <= i < u.len() ==> line_matches(#[trigger] body_lines(content@)[i], u[i]))
                && v@ == sort_by_date_spec(u),
        r matches Ok(v) ==> forall|i: int| 0 <= i < v@.len() ==> (#[trigger] v@[i]).date.wf(),
        r matches Err(e) ==> 2 <= e.line && e.line - 2 < body_lines(content@).len() && line_error(
            body_lines(content@)[e.line - 2],
        ) == Some(e.kind) && forall|j: int|
            0 <= j < e.line - 2 ==> line_error(#[trigger] body_lines(content@)[j]) is None,
{
    match parse_transactions(content) {
        Err(e) => Err(e),
        Ok(v) => {
            let ghost u = v@;
            let sorted = sort_by_date(v);
            proof {
                lemma_sort_by_date_members(u);
            }
            Ok(sorted)
        },
    }
}

proof fn lemma_sort_by_date_members(v: Seq<Transaction>)
    requires
        forall|i: int| 0 <= i < v.len() ==> (#[trigger] v[i]).date.wf(),
    ensures
        forall|i: int| 0 <= i < sort_by_date_spec(v).len() ==> (#[trigger] sort_by_date_spec(v)[i]).date.wf(),
    decreases v.len(),
{
    if v.len() > 0 {
        let p = v.drop_last();
        lemma_sort_by_date_members(p);
        lemma_insert_by_date_members(sort_by_date_spec(p), v.last());
    }
}

proof fn lemma_insert_by_date_members(q: Seq<Transaction>, x: Transaction)
    requires
        forall|i: int| 0 <= i < q.len() ==> (#[trigger] q[i]).date.wf(),
        x.date.wf(),
    ensures
        forall|i: int| 0 <= i < insert_by_date(q, x).len() ==> (#[trigger] insert_by_date(q, x)[i]).date.wf(),
    decreases q.len(),
{
    if q.len() > 0 && q.last().date.num() > x.date.num() {
        lemma_insert_by_date_members(q.drop_last(), x);
    }
}

} // verus!
