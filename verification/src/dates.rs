//! Dates as the forms and pages show them: ISO `YYYY-MM-DD` texts, today's
//! date, season-year dates picked by month and day, and the month picker.

use vstd::prelude::*;
use chrono::{Datelike, Local};
use crate::calendar::{
    date_from_day_number, date_of_day, day_number, day_number_from_date, is_chrono_date, is_valid_date,
    lemma_chrono_date_day, lemma_date_in_month, lemma_date_of_day, lemma_days_in_month_bounds,
    lemma_month_start_grows, month_index,
};
use crate::batches::text_le;
use crate::charts::{day_offset, iso_day_number, strict_iso_fields};
use crate::models::MonthOption;
use crate::text::{
    all_digits, digits_value, lemma_digits_value_bound, lemma_digits_value_ext, lemma_digits_value_front,
    lemma_four_digits, lemma_zero_padded, pow10, push_signed_zero_padded, push_zero_padded, signed_zero_padded,
    zero_padded,
};

verus! {

/// How chrono writes a `NaiveDate` (its `Display`, the same as
/// `%Y-%m-%d`): a four-digit year for years 0 through 9999, otherwise a
/// signed year of at least four digits, then two-digit month and day.
pub open spec fn iso_date_text(y: int, m: int, d: int) -> Seq<char> {
    let year = if 0 <= y <= 9999 {
        zero_padded(y as nat, 4)
    } else if y < 0 {
        "-"@ + zero_padded((-y) as nat, 4)
    } else {
        "+"@ + zero_padded(y as nat, 4)
    };
    year + "-"@ + zero_padded(m as nat, 2) + "-"@ + zero_padded(d as nat, 2)
}

/// The ISO text of a date, written the way chrono's `NaiveDate` displays it.
pub fn iso_date_string(y: i32, m: u32, d: u32) -> (s: String)
    ensures
        s@ == iso_date_text(y as int, m as int, d as int),
{
    let mut s = String::new();
    if 0 <= y && y <= 9999 {
        push_zero_padded(&mut s, y as u128, 4);
    } else if y < 0 {
        s.append("-");
        push_zero_padded(&mut s, (-(y as i64)) as u128, 4);
    } else {
        s.append("+");
        push_zero_padded(&mut s, y as u128, 4);
    }
    s.append("-");
    push_zero_padded(&mut s, m as u128, 2);
    s.append("-");
    push_zero_padded(&mut s, d as u128, 2);
    assert(s@ =~= iso_date_text(y as int, m as int, d as int));
    s
}

/// Today's date in the machine's local time zone, via chrono's
/// `Local::now().date_naive()` read back through the `year`, `month` and
/// `day` getters. Which date comes back depends on the clock; it is always
/// one that `NaiveDate` holds. chrono panics when the system clock reads
/// before 1970 or the time-zone data cannot be read: that comes from the
/// machine, not from any argument, so no `requires` can rule it out.
#[verifier::external_body]
fn local_today() -> (r: (i32, u32, u32))
    ensures
        is_chrono_date(r.0 as int, r.1 as int, r.2 as int),
{
    let today = Local::now().date_naive();
    (today.year(), today.month(), today.day())
}

/// Today's date as ISO `YYYY-MM-DD`.
pub fn today_iso() -> (s: String)
    ensures
        exists|y: int, m: int, d: int| is_chrono_date(y, m, d) && s@ == iso_date_text(y, m, d),
{
    let (y, m, d) = local_today();
    iso_date_string(y, m, d)
}

/// Today's month, 1 through 12.
pub fn today_month() -> (m: u32)
    ensures
        1 <= m <= 12,
{
    let (_, m, _) = local_today();
    m
}

/// Today's day of the month, 1 through 31.
pub fn today_day() -> (d: u32)
    ensures
        1 <= d <= 31,
{
    let (_, _, d) = local_today();
    d
}

/// The error of a season date that does not exist.
#[derive(Debug)]
pub struct InvalidDate {
    pub year: i64,
    pub month: u32,
    pub day: u32,
}

pub open spec fn invalid_date_message(year: int, month: int, day: int) -> Seq<char> {
    signed_zero_padded(year, 4) + "-"@ + zero_padded(month as nat, 2) + "-"@ + zero_padded(day as nat, 2)
        + " is not a valid date"@
}

impl InvalidDate {
    /// `YYYY-MM-DD is not a valid date`, with the fields as they were given.
    pub fn message(&self) -> (s: String)
        ensures
            s@ == invalid_date_message(self.year as int, self.month as int, self.day as int),
    {
        let mut s = String::new();
        push_signed_zero_padded(&mut s, self.year, 4);
        s.append("-");
        push_zero_padded(&mut s, self.month as u128, 2);
        s.append("-");
        push_zero_padded(&mut s, self.day as u128, 2);
        s.append(" is not a valid date");
        assert(s@ =~= invalid_date_message(self.year as int, self.month as int, self.day as int));
        s
    }
}

/// Combines a batch's season year with a user-picked month/day — used for
/// event types (juicing) that always fall within their batch's own harvest
/// season, so the form never asks for a year. The year is taken as an
/// `i32`, wrapping as `year as i32` does.
pub fn season_date(year: i64, month: u32, day: u32) -> (r: Result<String, InvalidDate>)
    ensures
        is_chrono_date((year as i32) as int, month as int, day as int) ==> (r matches Ok(s) && s@
            == iso_date_text((year as i32) as int, month as int, day as int)),
        !is_chrono_date((year as i32) as int, month as int, day as int) ==> (r matches Err(e)
            && e.year == year && e.month == month && e.day == day),
{
    let y = year as i32;
    match day_number_from_date(y, month, day) {
        Some(_) => Ok(iso_date_string(y, month, day)),
        None => Err(InvalidDate { year, month, day }),
    }
}

pub open spec fn month_name_spec(m: int) -> Seq<char> {
    if m == 1 { "January"@ }
    else if m == 2 { "February"@ }
    else if m == 3 { "March"@ }
    else if m == 4 { "April"@ }
    else if m == 5 { "May"@ }
    else if m == 6 { "June"@ }
    else if m == 7 { "July"@ }
    else if m == 8 { "August"@ }
    else if m == 9 { "September"@ }
    else if m == 10 { "October"@ }
    else if m == 11 { "November"@ }
    else { "December"@ }
}

/// Full English name of month `m` (1 through 12).
pub fn month_name(m: u32) -> (s: &'static str)
    requires
        1 <= m <= 12,
    ensures
        s@ == month_name_spec(m as int),
{
    if m == 1 { "January" }
    else if m == 2 { "February" }
    else if m == 3 { "March" }
    else if m == 4 { "April" }
    else if m == 5 { "May" }
    else if m == 6 { "June" }
    else if m == 7 { "July" }
    else if m == 8 { "August" }
    else if m == 9 { "September" }
    else if m == 10 { "October" }
    else if m == 11 { "November" }
    else { "December" }
}

/// The twelve months in calendar order, the one numbered `selected` marked
/// as selected (none when `selected` is not 1 through 12).
pub open spec fn is_month_picker(options: Seq<MonthOption>, selected: int) -> bool {
    &&& options.len() == 12
    &&& forall|i: int|
        0 <= i < 12 ==> {
            &&& (#[trigger] options[i]).value == i + 1
            &&& options[i].label@ == month_name_spec(i + 1)
            &&& options[i].selected == (i + 1 == selected)
        }
}

/// The month picker with month `selected` preselected.
pub fn month_options_selected(selected: u32) -> (options: Vec<MonthOption>)
    ensures
        is_month_picker(options@, selected as int),
{
    let mut options: Vec<MonthOption> = Vec::new();
    let mut m: u32 = 1;
    while m <= 12
        invariant
            1 <= m <= 13,
            options@.len() == m - 1,
            forall|i: int|
                0 <= i < m - 1 ==> {
                    &&& (#[trigger] options@[i]).value == i + 1
                    &&& options@[i].label@ == month_name_spec(i + 1)
                    &&& options@[i].selected == (i + 1 == selected)
                },
        decreases 13 - m,
    {
        options.push(MonthOption { value: m, label: month_name(m), selected: m == selected });
        m = m + 1;
    }
    options
}

/// The month picker with the current month preselected: every month once,
/// in order, and exactly one of them selected.
pub fn month_options() -> (options: Vec<MonthOption>)
    ensures
        exists|current: int| 1 <= current <= 12 && is_month_picker(options@, current),
{
    let current = today_month();
    month_options_selected(current)
}

/// Two digit strings of one length compare as text the way their values
/// compare as numbers.
proof fn lemma_digit_text_order(a: Seq<char>, b: Seq<char>)
    requires
        a.len() == b.len(),
        all_digits(a, 0, a.len() as int),
        all_digits(b, 0, b.len() as int),
    ensures
        text_le(a, b) <==> digits_value(a, 0, a.len() as int) <= digits_value(b, 0, b.len() as int),
    decreases a.len(),
{
    let n = a.len() as int;
    if n > 0 {
        let ta = a.drop_first();
        let tb = b.drop_first();
        assert forall|i: int| 0 <= i < n - 1 implies '0' <= #[trigger] ta[i] <= '9' by {
            assert(ta[i] == a[i + 1]);
        }
        assert forall|i: int| 0 <= i < n - 1 implies '0' <= #[trigger] tb[i] <= '9' by {
            assert(tb[i] == b[i + 1]);
        }
        lemma_digit_text_order(ta, tb);
        lemma_digits_value_front(a, 0, n);
        lemma_digits_value_front(b, 0, n);
        lemma_digits_value_ext(a, ta, 1, 0, n - 1);
        lemma_digits_value_ext(b, tb, 1, 0, n - 1);
        lemma_digits_value_bound(ta, 0, n - 1);
        lemma_digits_value_bound(tb, 0, n - 1);
        assert('0' <= a[0] <= '9' && '0' <= b[0] <= '9');
        let ca = a[0] as int - '0' as int;
        let cb = b[0] as int - '0' as int;
        let p = pow10((n - 1) as nat);
        let ra = digits_value(ta, 0, n - 1);
        let rb = digits_value(tb, 0, n - 1);
        if ca < cb {
            assert(ca * p + ra < cb * p + rb) by (nonlinear_arith)
                requires ca < cb, 0 <= ra < p, 0 <= rb;
        } else if ca > cb {
            assert(ca * p + ra > cb * p + rb) by (nonlinear_arith)
                requires ca > cb, 0 <= rb < p, 0 <= ra;
        }
    }
}

/// Text comparison of `x + y` against `x2 + y2`, where `x` and `x2` have
/// one length: decided by the prefixes unless they are equal.
proof fn lemma_text_le_concat(x: Seq<char>, y: Seq<char>, x2: Seq<char>, y2: Seq<char>)
    requires
        x.len() == x2.len(),
    ensures
        text_le(x + y, x2 + y2) == (if x == x2 { text_le(y, y2) } else { text_le(x, x2) }),
    decreases x.len(),
{
    if x.len() > 0 {
        assert((x + y).drop_first() =~= x.drop_first() + y);
        assert((x2 + y2).drop_first() =~= x2.drop_first() + y2);
        assert((x + y)[0] == x[0] && (x2 + y2)[0] == x2[0]);
        lemma_text_le_concat(x.drop_first(), y, x2.drop_first(), y2);
        if x[0] == x2[0] && x.drop_first() == x2.drop_first() {
            assert forall|i: int| 0 <= i < x.len() implies x[i] == x2[i] by {
                if i > 0 {
                    assert(x[i] == x.drop_first()[i - 1]);
                    assert(x2[i] == x2.drop_first()[i - 1]);
                }
            }
            assert(x =~= x2);
        }
        if x == x2 {
            assert(x.drop_first() == x2.drop_first());
        }
    } else {
        assert(x + y =~= y);
        assert(x2 + y2 =~= y2);
        assert(x =~= x2);
    }
}

/// For text of one length, comparing both ways means equal text.
proof fn lemma_text_le_antisym(a: Seq<char>, b: Seq<char>)
    requires
        a.len() == b.len(),
        text_le(a, b),
        text_le(b, a),
    ensures
        a == b,
    decreases a.len(),
{
    if a.len() > 0 {
        lemma_text_le_antisym(a.drop_first(), b.drop_first());
        assert(a =~= b) by {
            assert forall|i: int| 0 <= i < a.len() implies a[i] == b[i] by {
                if i > 0 {
                    assert(a[i] == a.drop_first()[i - 1]);
                    assert(b[i] == b.drop_first()[i - 1]);
                }
            }
        }
    } else {
        assert(a =~= b);
    }
}

/// Dates in (year, month, day) order have day numbers in the same order.
proof fn lemma_date_order(y1: int, m1: int, d1: int, y2: int, m2: int, d2: int)
    requires
        is_valid_date(y1, m1, d1),
        is_valid_date(y2, m2, d2),
    ensures
        (y1 < y2 || (y1 == y2 && (m1 < m2 || (m1 == m2 && d1 <= d2)))) <==> day_number(y1, m1, d1) <= day_number(
            y2,
            m2,
            d2,
        ),
{
    lemma_date_in_month(y1, m1, d1);
    lemma_date_in_month(y2, m2, d2);
    let k1 = month_index(y1, m1);
    let k2 = month_index(y2, m2);
    if k1 < k2 {
        lemma_month_start_grows(k1 + 1, k2);
    } else if k2 < k1 {
        lemma_month_start_grows(k2 + 1, k1);
    }
}

proof fn lemma_block(s: Seq<char>, from: int, to: int)
    requires
        0 <= from <= to <= s.len(),
        all_digits(s, from, to),
    ensures
        all_digits(s.subrange(from, to), 0, to - from),
        digits_value(s.subrange(from, to), 0, to - from) == digits_value(s, from, to),
{
    let t = s.subrange(from, to);
    assert forall|i: int| 0 <= i < to - from implies '0' <= #[trigger] t[i] <= '9' by {
        assert(t[i] == s[from + i]);
    }
    lemma_digits_value_ext(s, t, from, 0, to - from);
}

/// Same-length digit blocks: as text they compare like their values, and
/// they are equal exactly when their values are.
proof fn lemma_block_order(x: Seq<char>, x2: Seq<char>)
    requires
        x.len() == x2.len(),
        all_digits(x, 0, x.len() as int),
        all_digits(x2, 0, x2.len() as int),
    ensures
        text_le(x, x2) <==> digits_value(x, 0, x.len() as int) <= digits_value(x2, 0, x2.len() as int),
        x == x2 <==> digits_value(x, 0, x.len() as int) == digits_value(x2, 0, x2.len() as int),
{
    lemma_digit_text_order(x, x2);
    lemma_digit_text_order(x2, x);
    if digits_value(x, 0, x.len() as int) == digits_value(x2, 0, x2.len() as int) {
        lemma_text_le_antisym(x, x2);
    }
}

/// ISO `YYYY-MM-DD` texts of real dates compare as text in the order of
/// the dates themselves: one sorts before or with another exactly when its
/// date comes on or before the other's. Ordering timeline rows, and keeping
/// a bar's end from falling before its start, compare the stored texts on
/// the strength of this.
pub proof fn law_iso_text_order_is_date_order(a: Seq<char>, b: Seq<char>)
    requires
        strict_iso_fields(a) is Some,
        strict_iso_fields(b) is Some,
        is_valid_date(
            strict_iso_fields(a)->Some_0.0,
            strict_iso_fields(a)->Some_0.1,
            strict_iso_fields(a)->Some_0.2,
        ),
        is_valid_date(
            strict_iso_fields(b)->Some_0.0,
            strict_iso_fields(b)->Some_0.1,
            strict_iso_fields(b)->Some_0.2,
        ),
    ensures
        text_le(a, b) <==> day_number(
            strict_iso_fields(a)->Some_0.0,
            strict_iso_fields(a)->Some_0.1,
            strict_iso_fields(a)->Some_0.2,
        ) <= day_number(
            strict_iso_fields(b)->Some_0.0,
            strict_iso_fields(b)->Some_0.1,
            strict_iso_fields(b)->Some_0.2,
        ),
{
    let fa = strict_iso_fields(a)->Some_0;
    let fb = strict_iso_fields(b)->Some_0;
    let (ya, ma, da) = (a.subrange(0, 4), a.subrange(5, 7), a.subrange(8, 10));
    let (yb, mb, db) = (b.subrange(0, 4), b.subrange(5, 7), b.subrange(8, 10));
    lemma_block(a, 0, 4);
    lemma_block(a, 5, 7);
    lemma_block(a, 8, 10);
    lemma_block(b, 0, 4);
    lemma_block(b, 5, 7);
    lemma_block(b, 8, 10);
    lemma_block_order(ya, yb);
    lemma_block_order(ma, mb);
    lemma_block_order(da, db);
    let sa = seq![a[4]];
    let sb = seq![b[4]];
    let ta = seq![a[7]];
    let tb = seq![b[7]];
    assert(sa =~= sb && ta =~= tb);
    assert(a =~= ya + (sa + (ma + (ta + da))));
    assert(b =~= yb + (sb + (mb + (tb + db))));
    lemma_text_le_concat(ya, sa + (ma + (ta + da)), yb, sb + (mb + (tb + db)));
    lemma_text_le_concat(sa, ma + (ta + da), sb, mb + (tb + db));
    lemma_text_le_concat(ma, ta + da, mb, tb + db);
    lemma_text_le_concat(ta, da, tb, db);
    lemma_date_order(fa.0, fa.1, fa.2, fb.0, fb.1, fb.2);
}

/// Two ISO `YYYY-MM-DD` texts of real dates name the same day exactly when
/// they are the same text, and one sorts strictly before the other exactly
/// when its day comes strictly first: `day_offset` reads distinct texts as
/// distinct days, in text order.
pub proof fn law_iso_texts_name_days_one_to_one(a: Seq<char>, b: Seq<char>)
    requires
        strict_iso_fields(a) is Some,
        strict_iso_fields(b) is Some,
        is_valid_date(
            strict_iso_fields(a)->Some_0.0,
            strict_iso_fields(a)->Some_0.1,
            strict_iso_fields(a)->Some_0.2,
        ),
        is_valid_date(
            strict_iso_fields(b)->Some_0.0,
            strict_iso_fields(b)->Some_0.1,
            strict_iso_fields(b)->Some_0.2,
        ),
    ensures
        ({
            let fa = strict_iso_fields(a)->Some_0;
            let fb = strict_iso_fields(b)->Some_0;
            &&& a == b <==> day_number(fa.0, fa.1, fa.2) == day_number(fb.0, fb.1, fb.2)
            &&& (text_le(a, b) && a != b) <==> day_number(fa.0, fa.1, fa.2) < day_number(fb.0, fb.1, fb.2)
        }),
{
    law_iso_text_order_is_date_order(a, b);
    law_iso_text_order_is_date_order(b, a);
    crate::batches::lemma_text_le_refl(a);
    if text_le(a, b) && text_le(b, a) {
        lemma_text_le_antisym(a, b);
    }
}

/// A season date of a year from 0 through 9999 is written as plain
/// `YYYY-MM-DD`, and reading that text back gives the year, month and day
/// it was made from — so `month_day_of` prefills an edit form with the
/// month and day that `season_date` stored.
pub proof fn law_season_date_reads_back(y: int, m: int, d: int)
    requires
        0 <= y <= 9999,
        is_valid_date(y, m, d),
    ensures
        strict_iso_fields(iso_date_text(y, m, d)) == Some((y, m, d)),
{
    lemma_days_in_month_bounds(y, m);
    lemma_zero_padded(y as nat, 4);
    lemma_zero_padded(m as nat, 2);
    lemma_zero_padded(d as nat, 2);
    let yt = zero_padded(y as nat, 4);
    let mt = zero_padded(m as nat, 2);
    let dt = zero_padded(d as nat, 2);
    reveal_strlit("-");
    let s = iso_date_text(y, m, d);
    assert(s =~= yt + seq!['-'] + mt + seq!['-'] + dt);
    assert(s.len() == 10);
    assert(forall|i: int| 0 <= i < 4 ==> s[i] == yt[i]);
    assert(forall|i: int| 0 <= i < 2 ==> s[i + 5] == mt[i]);
    assert(forall|i: int| 0 <= i < 2 ==> s[i + 8] == dt[i]);
    lemma_digits_value_ext(s, yt, 0, 0, 4);
    lemma_digits_value_ext(s, mt, 5, 0, 2);
    lemma_digits_value_ext(s, dt, 8, 0, 2);
    assert(all_digits(s, 0, 4)) by {
        assert forall|i: int| 0 <= i < 4 implies '0' <= #[trigger] s[i] <= '9' by {
            assert(s[i] == yt[i]);
        }
    }
    assert(all_digits(s, 5, 7)) by {
        assert forall|i: int| 5 <= i < 7 implies '0' <= #[trigger] s[i] <= '9' by {
            assert(s[i] == mt[i - 5]);
        }
    }
    assert(all_digits(s, 8, 10)) by {
        assert forall|i: int| 8 <= i < 10 implies '0' <= #[trigger] s[i] <= '9' by {
            assert(s[i] == dt[i - 8]);
        }
    }
}

/// The month and day of an ISO date text, as read by `day_offset`; `None`
/// when it does not read as a date.
pub open spec fn month_day_spec(iso: Seq<char>) -> Option<(u32, u32)> {
    match iso_day_number(iso) {
        Some(n) => Some((date_of_day(n as int).1 as u32, date_of_day(n as int).2 as u32)),
        None => None,
    }
}

/// The month and day of a stored event date, to prefill an edit form
/// that only asks for those two (the year is the batch's season).
pub fn month_day_of(iso: &str) -> (r: Option<(u32, u32)>)
    ensures
        r == month_day_spec(iso@),
        strict_iso_fields(iso@) matches Some(f) ==> r == (if is_valid_date(f.0, f.1, f.2) {
            Some((f.1 as u32, f.2 as u32))
        } else {
            None::<(u32, u32)>
        }),
{
    proof {
        match strict_iso_fields(iso@) {
            Some(f) => {
                lemma_four_digits(iso@, 0);
                if is_valid_date(f.0, f.1, f.2) {
                    lemma_chrono_date_day(f.0, f.1, f.2);
                    lemma_date_of_day(f.0, f.1, f.2);
                }
            },
            None => {},
        }
    }
    match day_offset(iso) {
        Some(n) => {
            match date_from_day_number(n as i32) {
                Some((y, m, d)) => {
                    proof {
                        lemma_date_of_day(y as int, m as int, d as int);
                    }
                    Some((m, d))
                },
                None => None,
            }
        },
        None => None,
    }
}

} // verus!
