//! Chart building blocks: the day-tick axis of the per-metric line charts,
//! their legend and tooltip escaping, and the Season overview timeline,
//! rendered as SVG with every coordinate computed as `f64` computes it,
//! carried out in integers.

use vstd::prelude::*;
use crate::batches::{text_le, with_notes, with_notes_text};
use crate::dates::law_iso_text_order_is_date_order;
use crate::models::BatchTimelineRow;
use crate::binary64::{
    binary_ge, binary_ge_exec, binary_sub, binary_sub_exec, binary_text, push_binary, timeline_x, timeline_x_exec,
};
use crate::text::{all_digits, decimal1, digits_value, int_text, lemma_four_digits, nat_digits, push_decimal1, push_int, push_nat};
use crate::calendar::{
    date_from_day_number, date_of_day, day_number, is_chrono_day, is_valid_date, lemma_chrono_date_day,
    lemma_date_in_month, lemma_date_of_day, max_day,
};
use chrono::{Datelike, NaiveDate};

verus! {

/// Tick interval in days for an axis spanning `span_days` days.
pub open spec fn tick_interval(span_days: int) -> int {
    if span_days <= 14 { 2 }
    else if span_days <= 30 { 5 }
    else if span_days <= 90 { 10 }
    else if span_days <= 180 { 30 }
    else { 60 }
}

/// Tick interval in days, chosen from the axis's day span so a chart never
/// ends up with a handful of ticks crammed together or dozens of them.
pub fn day_tick_interval(span_days: i64) -> (r: i64)
    ensures
        r == tick_interval(span_days as int),
{
    if span_days <= 14 {
        2
    } else if span_days <= 30 {
        5
    } else if span_days <= 90 {
        10
    } else if span_days <= 180 {
        30
    } else {
        60
    }
}

/// Index (as a multiple of the interval) of the lowest tick.
pub open spec fn lowest_tick_index(axis_min: int, interval: int) -> int {
    if axis_min <= 0 { -((-axis_min) / interval) } else { 1 }
}

/// Index (as a multiple of the interval) of the highest tick.
pub open spec fn highest_tick_index(axis_max: int, interval: int) -> int {
    if axis_max >= interval { axis_max / interval } else { 0 }
}

/// The ticks of an axis: every multiple of the interval counting outward
/// from day 0 in both directions, 0 itself whenever the axis reaches down
/// to it, in ascending order.
pub open spec fn day_ticks_spec(axis_min: int, axis_max: int) -> Seq<int> {
    let interval = tick_interval(axis_max - axis_min);
    let lo = lowest_tick_index(axis_min, interval);
    let hi = highest_tick_index(axis_max, interval);
    Seq::new((hi - lo + 1) as nat, |i: int| (lo + i) * interval)
}

/// Every tick day within `[axis_min, axis_max]`, spaced by
/// `day_tick_interval`'s result and always including 0 — every Nth day
/// counting outward from Fermentation Start.
pub fn day_ticks(axis_min: i64, axis_max: i64) -> (ticks: Vec<i64>)
    requires
        i64::MIN / 2 <= axis_min <= i64::MAX / 2,
        i64::MIN / 2 <= axis_max <= i64::MAX / 2,
    ensures
        ticks@.map_values(|t: i64| t as int) == day_ticks_spec(axis_min as int, axis_max as int),
{
    let interval = day_tick_interval(axis_max - axis_min);
    let lo: i64 = if axis_min <= 0 { -((-axis_min) / interval) } else { 1 };
    let hi: i64 = if axis_max >= interval { axis_max / interval } else { 0 };
    let ghost spec_ticks = day_ticks_spec(axis_min as int, axis_max as int);
    proof {
        let q = (-axis_min) / (interval as int);
        if axis_min <= 0 {
            assert(q * interval <= -axis_min) by (nonlinear_arith)
                requires q == (-axis_min) / (interval as int), interval > 0, -axis_min >= 0;
            assert(q >= 0) by (nonlinear_arith)
                requires q == (-axis_min) / (interval as int), interval > 0, -axis_min >= 0;
            assert(lo * interval >= axis_min && lo * interval <= 0) by (nonlinear_arith)
                requires lo == -q, q * interval <= -axis_min, q >= 0, interval > 0;
        } else {
            assert(lo * interval == interval);
        }
        if axis_max >= interval {
            assert(hi * interval <= axis_max) by (nonlinear_arith)
                requires hi == (axis_max as int) / (interval as int), interval > 0, axis_max >= 0;
            assert(hi >= 1) by (nonlinear_arith)
                requires hi == (axis_max as int) / (interval as int), interval > 0, axis_max >= interval;
        }
    }
    let mut ticks: Vec<i64> = Vec::new();
    let mut day: i64 = lo * interval;
    let mut k: i64 = lo;
    while k <= hi
        invariant
            2 <= interval <= 60,
            interval == tick_interval(axis_max - axis_min),
            lo == lowest_tick_index(axis_min as int, interval as int),
            hi == highest_tick_index(axis_max as int, interval as int),
            i64::MIN / 2 <= axis_min <= i64::MAX / 2,
            i64::MIN / 2 <= axis_max <= i64::MAX / 2,
            hi * interval <= (if axis_max >= 0 { axis_max as int } else { 0int }),
            lo * interval >= (if axis_min <= 0 { axis_min as int } else { interval as int }),
            lo <= k,
            k <= hi + 1 || k == lo,
            day == k * interval,
            ticks@.len() == k - lo,
            forall|i: int| 0 <= i < ticks@.len() ==> ticks@[i] as int == (lo + i) * interval,
        decreases hi + 1 - k,
    {
        assert(k * interval <= hi * interval) by (nonlinear_arith)
            requires k <= hi, interval > 0;
        assert(k * interval >= lo * interval) by (nonlinear_arith)
            requires k >= lo, interval > 0;
        ticks.push(day);
        day = day + interval;
        k = k + 1;
        assert(day == k * interval) by (nonlinear_arith)
            requires day == (k - 1) * interval + interval;
    }
    assert(ticks@.map_values(|t: i64| t as int) =~= spec_ticks);
    ticks
}

/// On an axis that reaches from `axis_min <= 0` to `axis_max >= 0`, the ticks
/// are exactly the multiples of the tick interval that lie on the axis, in
/// strictly ascending order; day 0 (Fermentation Start) is always one of
/// them.
pub proof fn law_day_ticks_are_the_axis_multiples(axis_min: int, axis_max: int)
    requires
        axis_min <= 0 <= axis_max,
    ensures
        ({
            let ticks = day_ticks_spec(axis_min, axis_max);
            let interval = tick_interval(axis_max - axis_min);
            &&& ticks.contains(0)
            &&& forall|i: int| 0 <= i < ticks.len() ==> axis_min <= #[trigger] ticks[i] <= axis_max
                && ticks[i] % interval == 0
            &&& forall|i: int, j: int| 0 <= i < j < ticks.len() ==> ticks[i] < ticks[j]
            &&& forall|d: int| axis_min <= d <= axis_max && d % interval == 0 ==> ticks.contains(d)
        }),
{
    let ticks = day_ticks_spec(axis_min, axis_max);
    let interval = tick_interval(axis_max - axis_min);
    let lo = lowest_tick_index(axis_min, interval);
    let hi = highest_tick_index(axis_max, interval);
    let q = (-axis_min) / interval;
    assert(q * interval <= -axis_min < (q + 1) * interval) by (nonlinear_arith)
        requires q == (-axis_min) / interval, interval > 0, -axis_min >= 0;
    assert(q >= 0) by (nonlinear_arith)
        requires q == (-axis_min) / interval, interval > 0, -axis_min >= 0;
    assert(hi * interval <= axis_max < (hi + 1) * interval) by (nonlinear_arith)
        requires
            hi == (if axis_max >= interval { axis_max / interval } else { 0 }),
            interval > 0,
            axis_max >= 0;
    assert(hi >= 0) by (nonlinear_arith)
        requires hi == (if axis_max >= interval { axis_max / interval } else { 0 }), interval > 0, axis_max >= 0;
    assert(ticks[-lo] == 0);
    assert forall|i: int| 0 <= i < ticks.len() implies axis_min <= #[trigger] ticks[i] <= axis_max
        && ticks[i] % interval == 0 by {
        assert(ticks[i] == (lo + i) * interval);
        assert(lo * interval <= (lo + i) * interval <= hi * interval) by (nonlinear_arith)
            requires 0 <= i, lo + i <= hi, interval > 0;
        assert(((lo + i) * interval) % interval == 0) by (nonlinear_arith)
            requires interval > 0;
    }
    assert forall|i: int, j: int| 0 <= i < j < ticks.len() implies ticks[i] < ticks[j] by {
        assert((lo + i) * interval < (lo + j) * interval) by (nonlinear_arith)
            requires i < j, interval > 0;
    }
    assert forall|d: int| axis_min <= d <= axis_max && d % interval == 0 implies ticks.contains(d) by {
        let k = d / interval;
        assert(d == k * interval) by (nonlinear_arith)
            requires d % interval == 0, k == d / interval, interval > 0;
        assert(lo <= k <= hi) by (nonlinear_arith)
            requires
                d == k * interval,
                interval > 0,
                axis_min <= d <= axis_max,
                lo == -q,
                q * interval <= -axis_min < (q + 1) * interval,
                hi * interval <= axis_max < (hi + 1) * interval;
        assert(ticks[k - lo] == d);
    }
}

/// How one character is written inside an XML text node.
pub open spec fn escape_char(c: char) -> Seq<char> {
    if c == '&' {
        "&amp;"@
    } else if c == '<' {
        "&lt;"@
    } else if c == '>' {
        "&gt;"@
    } else {
        seq![c]
    }
}

/// `s` with `&`, `<` and `>` replaced by their XML entities.
pub open spec fn escape_xml(s: Seq<char>) -> Seq<char>
    decreases s.len(),
{
    if s.len() == 0 {
        seq![]
    } else {
        escape_xml(s.drop_last()) + escape_char(s.last())
    }
}

/// Minimal XML text-content escaping for the characters that are
/// structurally significant inside a `<title>` element — tooltip text can
/// hold a user-entered event note.
pub fn escape_xml_text(s: &str) -> (r: String)
    ensures
        r@ == escape_xml(s@),
{
    let n = s.unicode_len();
    let mut out = String::new();
    let mut i: usize = 0;
    while i < n
        invariant
            n == s@.len(),
            i <= n,
            out@ == escape_xml(s@.take(i as int)),
        decreases n - i,
    {
        let c = s.get_char(i);
        if c == '&' {
            out.append("&amp;");
        } else if c == '<' {
            out.append("&lt;");
        } else if c == '>' {
            out.append("&gt;");
        } else {
            out.append(s.substring_char(i, i + 1));
        }
        assert(s@.take(i + 1).drop_last() =~= s@.take(i as int));
        assert(s@.subrange(i as int, i + 1) =~= seq![c]);
        i = i + 1;
    }
    assert(s@.take(n as int) =~= s@);
    out
}

/// Escaped text never holds a `<` or a `>`, so it cannot open or close an
/// element.
pub proof fn law_escaped_text_has_no_angle_brackets(s: Seq<char>)
    ensures
        !escape_xml(s).contains('<'),
        !escape_xml(s).contains('>'),
    decreases s.len(),
{
    reveal_strlit("&amp;");
    reveal_strlit("&lt;");
    reveal_strlit("&gt;");
    if s.len() > 0 {
        law_escaped_text_has_no_angle_brackets(s.drop_last());
        let a = escape_xml(s.drop_last());
        let b = escape_char(s.last());
        assert(!b.contains('<') && !b.contains('>'));
        assert forall|i: int| 0 <= i < (a + b).len() implies (a + b)[i] != '<' && (a + b)[i] != '>' by {
            if i < a.len() {
                assert(a[i] == (a + b)[i]);
            } else {
                assert(b[i - a.len()] == (a + b)[i]);
            }
        }
    }
}

/// `s.replace(from, to)` for a non-empty `from`: every occurrence of
/// `from`, found left to right without overlaps, replaced by `to`.
pub open spec fn replaced(s: Seq<char>, from: Seq<char>, to: Seq<char>) -> Seq<char>
    decreases s.len(),
{
    if from.len() == 0 || s.len() < from.len() {
        s
    } else if s.take(from.len() as int) == from {
        to + replaced(s.skip(from.len() as int), from, to)
    } else {
        seq![s[0]] + replaced(s.skip(1), from, to)
    }
}

proof fn lemma_replaced_match(t: Seq<char>, from: Seq<char>, to: Seq<char>)
    requires
        from.len() > 0,
    ensures
        replaced(from + t, from, to) == to + replaced(t, from, to),
{
    let x = from + t;
    assert(x.take(from.len() as int) =~= from);
    assert(x.skip(from.len() as int) =~= t);
}

/// No occurrence starts at the first character: it is kept.
proof fn lemma_replaced_keeps(c: char, t: Seq<char>, from: Seq<char>, to: Seq<char>)
    requires
        from.len() > 0,
        (seq![c] + t).len() < from.len() || (seq![c] + t).take(from.len() as int) != from,
    ensures
        replaced(seq![c] + t, from, to) == seq![c] + replaced(t, from, to),
{
    let x = seq![c] + t;
    assert(x.skip(1) =~= t);
    assert(x[0] == c);
    if x.len() < from.len() {
        assert(t.len() < from.len());
        assert(replaced(t, from, to) == t);
        assert(x =~= seq![c] + t);
    }
}

/// Characters that cannot begin `from` pass through unchanged.
proof fn lemma_replaced_prefix(a: Seq<char>, t: Seq<char>, from: Seq<char>, to: Seq<char>)
    requires
        from.len() > 0,
        forall|i: int| 0 <= i < a.len() ==> #[trigger] a[i] != from[0],
    ensures
        replaced(a + t, from, to) == a + replaced(t, from, to),
    decreases a.len(),
{
    if a.len() > 0 {
        let rest = a.drop_first();
        assert forall|i: int| 0 <= i < rest.len() implies #[trigger] rest[i] != from[0] by {
            assert(rest[i] == a[i + 1]);
        }
        lemma_replaced_prefix(rest, t, from, to);
        assert(a + t =~= seq![a[0]] + (rest + t));
        let x = seq![a[0]] + (rest + t);
        if x.len() >= from.len() {
            assert(x.take(from.len() as int)[0] == a[0]);
        }
        lemma_replaced_keeps(a[0], rest + t, from, to);
        assert(a + replaced(t, from, to) =~= seq![a[0]] + (rest + replaced(t, from, to)));
    } else {
        assert(a + t =~= t);
        assert(a + replaced(t, from, to) =~= replaced(t, from, to));
    }
}

proof fn lemma_escape_front(s: Seq<char>)
    requires
        s.len() > 0,
    ensures
        escape_xml(s) == escape_char(s[0]) + escape_xml(s.drop_first()),
    decreases s.len(),
{
    if s.len() == 1 {
        assert(s.drop_last().len() == 0);
        assert(escape_xml(s.drop_last()) == Seq::<char>::empty());
        assert(s.last() == s[0]);
        assert(s.drop_first().len() == 0);
        assert(escape_xml(s.drop_first()) == Seq::<char>::empty());
        assert(escape_xml(s) =~= escape_char(s[0]));
        assert(escape_char(s[0]) + escape_xml(s.drop_first()) =~= escape_char(s[0]));
    } else {
        lemma_escape_front(s.drop_last());
        assert(s.drop_last().drop_first() =~= s.drop_first().drop_last());
        assert(s.drop_first().last() == s.last());
        assert(s.drop_last()[0] == s[0]);
        assert(escape_xml(s) =~= escape_char(s[0]) + escape_xml(s.drop_first()));
    }
}

/// `s` escaped with only `&` and `>` still written as entities.
spec fn escaped_but_lt(s: Seq<char>) -> Seq<char>
    decreases s.len(),
{
    if s.len() == 0 {
        seq![]
    } else {
        (if s[0] == '<' { seq!['<'] } else { escape_char(s[0]) }) + escaped_but_lt(s.drop_first())
    }
}

/// `s` with only `&` still written as an entity.
spec fn escaped_amp_only(s: Seq<char>) -> Seq<char>
    decreases s.len(),
{
    if s.len() == 0 {
        seq![]
    } else {
        (if s[0] == '&' { "&amp;"@ } else { seq![s[0]] }) + escaped_amp_only(s.drop_first())
    }
}

proof fn lemma_undo_lt(s: Seq<char>)
    ensures
        replaced(escape_xml(s), "&lt;"@, "<"@) == escaped_but_lt(s),
    decreases s.len(),
{
    reveal_strlit("&amp;");
    reveal_strlit("&lt;");
    reveal_strlit("&gt;");
    reveal_strlit("<");
    let from = "&lt;"@;
    let to = "<"@;
    if s.len() == 0 {
        assert(escape_xml(s) =~= seq![]);
    } else {
        let c = s[0];
        let rest = s.drop_first();
        let e = escape_xml(rest);
        lemma_escape_front(s);
        lemma_undo_lt(rest);
        if c == '<' {
            lemma_replaced_match(e, from, to);
            assert(to =~= seq!['<']);
        } else if c == '&' {
            let tail = seq!['a', 'm', 'p', ';'];
            assert("&amp;"@ + e =~= seq!['&'] + (tail + e));
            assert((seq!['&'] + (tail + e)).take(4)[1] == 'a');
            lemma_replaced_keeps('&', tail + e, from, to);
            lemma_replaced_prefix(tail, e, from, to);
            assert(seq!['&'] + (tail + replaced(e, from, to)) =~= "&amp;"@ + replaced(e, from, to));
        } else if c == '>' {
            let tail = seq!['g', 't', ';'];
            assert("&gt;"@ + e =~= seq!['&'] + (tail + e));
            assert((seq!['&'] + (tail + e)).take(4)[1] == 'g');
            lemma_replaced_keeps('&', tail + e, from, to);
            lemma_replaced_prefix(tail, e, from, to);
            assert(seq!['&'] + (tail + replaced(e, from, to)) =~= "&gt;"@ + replaced(e, from, to));
        } else {
            lemma_replaced_prefix(seq![c], e, from, to);
        }
    }
}

proof fn lemma_undo_gt(s: Seq<char>)
    ensures
        replaced(escaped_but_lt(s), "&gt;"@, ">"@) == escaped_amp_only(s),
    decreases s.len(),
{
    reveal_strlit("&amp;");
    reveal_strlit("&lt;");
    reveal_strlit("&gt;");
    reveal_strlit(">");
    let from = "&gt;"@;
    let to = ">"@;
    if s.len() == 0 {
    } else {
        let c = s[0];
        let rest = s.drop_first();
        let e = escaped_but_lt(rest);
        lemma_undo_gt(rest);
        if c == '>' {
            lemma_replaced_match(e, from, to);
            assert(to =~= seq!['>']);
        } else if c == '&' {
            let tail = seq!['a', 'm', 'p', ';'];
            assert("&amp;"@ + e =~= seq!['&'] + (tail + e));
            assert((seq!['&'] + (tail + e)).take(4)[1] == 'a');
            lemma_replaced_keeps('&', tail + e, from, to);
            lemma_replaced_prefix(tail, e, from, to);
            assert(seq!['&'] + (tail + replaced(e, from, to)) =~= "&amp;"@ + replaced(e, from, to));
        } else {
            lemma_replaced_prefix(seq![c], e, from, to);
        }
    }
}

proof fn lemma_undo_amp(s: Seq<char>)
    ensures
        replaced(escaped_amp_only(s), "&amp;"@, "&"@) == s,
    decreases s.len(),
{
    reveal_strlit("&amp;");
    reveal_strlit("&");
    let from = "&amp;"@;
    let to = "&"@;
    if s.len() == 0 {
    } else {
        let c = s[0];
        let rest = s.drop_first();
        let e = escaped_amp_only(rest);
        lemma_undo_amp(rest);
        if c == '&' {
            lemma_replaced_match(e, from, to);
            assert(to =~= seq!['&']);
        } else {
            lemma_replaced_prefix(seq![c], e, from, to);
        }
        assert(s =~= seq![c] + rest);
    }
}

/// Undoing the three entities, `&lt;` then `&gt;` then `&amp;`, as
/// `str::replace` does, gives the escaped text back unchanged.
pub proof fn law_unescaping_gives_the_text_back(s: Seq<char>)
    ensures
        replaced(replaced(replaced(escape_xml(s), "&lt;"@, "<"@), "&gt;"@, ">"@), "&amp;"@, "&"@) == s,
{
    lemma_undo_lt(s);
    lemma_undo_gt(s);
    lemma_undo_amp(s);
}

/// The year, month and day of a text of the exact shape `YYYY-MM-DD`
/// written with ASCII digits.
pub open spec fn strict_iso_fields(s: Seq<char>) -> Option<(int, int, int)> {
    if s.len() == 10 && s[4] == '-' && s[7] == '-' && all_digits(s, 0, 4) && all_digits(s, 5, 7)
        && all_digits(s, 8, 10) {
        Some((digits_value(s, 0, 4), digits_value(s, 5, 7), digits_value(s, 8, 10)))
    } else {
        None
    }
}

/// What `NaiveDate::parse_from_str(s, "%Y-%m-%d")` yields for `s`, read as
/// its day number: chrono's parser also accepts other spellings (leading
/// blanks, signed or shorter fields), so it is named rather than written out.
pub uninterp spec fn iso_day_number(s: Seq<char>) -> Option<i64>;

/// Day number of an ISO `YYYY-MM-DD` date, via chrono's
/// `NaiveDate::parse_from_str` and `num_days_from_ce`. A text of the exact
/// shape `YYYY-MM-DD` gives its date's day number when the date exists and
/// `None` when it does not; any date chrono returns is one it can hold.
#[verifier::external_body]
pub fn day_offset(iso_date: &str) -> (r: Option<i64>)
    ensures
        r == iso_day_number(iso_date@),
        r matches Some(n) ==> is_chrono_day(n as int),
        strict_iso_fields(iso_date@) matches Some(f) ==> r == (if is_valid_date(f.0, f.1, f.2) {
            Some(day_number(f.0, f.1, f.2) as i64)
        } else {
            None::<i64>
        }),
{
    NaiveDate::parse_from_str(iso_date, "%Y-%m-%d").ok().map(|d| d.num_days_from_ce() as i64)
}

/// The days from `anchor` to `date`, both read as `day_offset` reads
/// them; `None` when either does not read as a date.
pub open spec fn days_between(anchor: Seq<char>, date: Seq<char>) -> Option<i64> {
    match (iso_day_number(anchor), iso_day_number(date)) {
        (Some(a), Some(d)) => Some((d - a) as i64),
        _ => None,
    }
}

/// Where a reading sits on a metric chart's x-axis: the days since its
/// batch's first juicing (negative for a reading dated before it).
pub fn days_since(anchor: &str, date: &str) -> (r: Option<i64>)
    ensures
        r == days_between(anchor@, date@),
        r matches Some(n) ==> n == iso_day_number(date@)->Some_0 - iso_day_number(anchor@)->Some_0,
        ({
            let a = strict_iso_fields(anchor@)->Some_0;
            let d = strict_iso_fields(date@)->Some_0;
            strict_iso_fields(anchor@) is Some && strict_iso_fields(date@) is Some && is_valid_date(a.0, a.1, a.2)
                && is_valid_date(d.0, d.1, d.2) ==> r == Some((day_number(d.0, d.1, d.2) - day_number(a.0, a.1, a.2)) as i64)
        }),
{
    proof {
        match (strict_iso_fields(anchor@), strict_iso_fields(date@)) {
            (Some(a), Some(d)) => {
                lemma_four_digits(anchor@, 0);
                lemma_four_digits(date@, 0);
                if is_valid_date(a.0, a.1, a.2) && is_valid_date(d.0, d.1, d.2) {
                    lemma_chrono_date_day(a.0, a.1, a.2);
                    lemma_chrono_date_day(d.0, d.1, d.2);
                }
            },
            _ => {},
        }
    }
    match (day_offset(anchor), day_offset(date)) {
        (Some(a), Some(d)) => Some(d - a),
        _ => None,
    }
}

/// The hover text of a chart point: its date, its day since juicing, the
/// reading as already formatted, then the event's note.
pub open spec fn point_tooltip_text(date: Seq<char>, day: int, value: Seq<char>, notes: Option<String>) -> Seq<
    char,
> {
    with_notes_text(date + " (day "@ + int_text(day) + "): "@ + value, notes)
}

/// Builds a chart point's hover text.
pub fn point_tooltip(date: &str, day: i64, value: &str, notes: Option<String>) -> (r: String)
    ensures
        r@ == point_tooltip_text(date@, day as int, value@, notes),
{
    let mut s = String::from_str(date);
    s.append(" (day ");
    push_int(&mut s, day as i128);
    s.append("): ");
    s.append(value);
    assert(s@ =~= date@ + " (day "@ + int_text(day as int) + "): "@ + value@);
    with_notes(s, notes)
}

/// Three-letter name of the month with zero-based number `month0`.
pub open spec fn month_abbrev_spec(month0: int) -> Seq<char> {
    if month0 == 0 { "Jan"@ }
    else if month0 == 1 { "Feb"@ }
    else if month0 == 2 { "Mar"@ }
    else if month0 == 3 { "Apr"@ }
    else if month0 == 4 { "May"@ }
    else if month0 == 5 { "Jun"@ }
    else if month0 == 6 { "Jul"@ }
    else if month0 == 7 { "Aug"@ }
    else if month0 == 8 { "Sep"@ }
    else if month0 == 9 { "Oct"@ }
    else if month0 == 10 { "Nov"@ }
    else { "Dec"@ }
}

pub fn month_abbrev(month0: u32) -> (r: &'static str)
    requires
        month0 < 12,
    ensures
        r@ == month_abbrev_spec(month0 as int),
{
    if month0 == 0 { "Jan" }
    else if month0 == 1 { "Feb" }
    else if month0 == 2 { "Mar" }
    else if month0 == 3 { "Apr" }
    else if month0 == 4 { "May" }
    else if month0 == 5 { "Jun" }
    else if month0 == 6 { "Jul" }
    else if month0 == 7 { "Aug" }
    else if month0 == 8 { "Sep" }
    else if month0 == 9 { "Oct" }
    else if month0 == 10 { "Nov" }
    else { "Dec" }
}

/// Day `n` is a Monday: day 1, 0001-01-01, was a Monday, and weekdays
/// repeat every seven days.
pub open spec fn is_monday(n: int) -> bool {
    (n - 1) % 7 == 0
}

/// The first Monday on or after day `n`.
pub open spec fn first_monday_from(n: int) -> int {
    n + (7 - (n - 1) % 7) % 7
}

/// Weeks between two gridlines on an axis of `span` days: every week up
/// to 8 weeks, every 2 weeks up to 16, every 4 weeks up to 32, else every
/// 8 weeks.
pub open spec fn week_step(span: int) -> int {
    if span <= 56 {
        1
    } else if span <= 112 {
        2
    } else if span <= 224 {
        4
    } else {
        8
    }
}

/// The weekly gridlines of an axis from `axis_min` to `axis_max` (day
/// numbers): from the first Monday on or after `axis_min`, every
/// `week_step` weeks up to `axis_max`; nothing when either end of the axis
/// lies outside the dates chrono holds.
pub open spec fn week_gridlines_spec(axis_min: int, axis_max: int) -> Seq<int> {
    let first = first_monday_from(axis_min);
    let step = 7 * week_step(axis_max - axis_min);
    if is_chrono_day(axis_min) && is_chrono_day(axis_max) && first <= axis_max {
        Seq::new(((axis_max - first) / step + 1) as nat, |i: int| first + step * i)
    } else {
        seq![]
    }
}

/// A gridline's label, as chrono's `%b %-d` writes the date: the month's
/// three-letter name, a space and the unpadded day of the month (`Sep 10`).
pub open spec fn week_label(day: int) -> Seq<char> {
    let t = date_of_day(day);
    month_abbrev_spec(t.1 - 1) + " "@ + nat_digits(t.2 as nat)
}

/// The weekly gridlines of an axis between two dates all lie on the axis
/// and fall on Mondays, the first of them is the first Monday of the axis,
/// each comes `week_step` weeks after the one before, and every Monday of
/// the axis at a whole number of steps from the first is among them.
pub proof fn law_week_gridlines_are_evenly_spaced_mondays(axis_min: int, axis_max: int)
    requires
        is_chrono_day(axis_min),
        is_chrono_day(axis_max),
        axis_min < axis_max,
    ensures
        ({
            let lines = week_gridlines_spec(axis_min, axis_max);
            let step = 7 * week_step(axis_max - axis_min);
            &&& forall|i: int| 0 <= i < lines.len() ==> axis_min <= #[trigger] lines[i] <= axis_max && is_monday(lines[i])
            &&& lines.len() > 0 ==> lines[0] == first_monday_from(axis_min)
            &&& forall|i: int| 0 < i < lines.len() ==> #[trigger] lines[i] == lines[i - 1] + step
            &&& forall|d: int|
                axis_min <= d <= axis_max && (d - first_monday_from(axis_min)) % step == 0 && d >= first_monday_from(axis_min)
                    ==> lines.contains(d)
            &&& forall|d: int| axis_min <= d < first_monday_from(axis_min) ==> !is_monday(d)
        }),
{
    let first = first_monday_from(axis_min);
    let step = 7 * week_step(axis_max - axis_min);
    let lines = week_gridlines_spec(axis_min, axis_max);
    let r = (axis_min - 1) % 7;
    assert(0 <= r < 7);
    assert((first - 1) % 7 == 0) by {
        assert(first - 1 == (axis_min - 1) + (7 - r) % 7);
    }
    assert forall|i: int| 0 <= i < lines.len() implies axis_min <= #[trigger] lines[i] <= axis_max && is_monday(
        lines[i],
    ) by {
        assert(lines[i] == first + step * i);
        assert(step * i <= step * ((axis_max - first) / step)) by (nonlinear_arith)
            requires
                i <= (axis_max - first) / step,
                step > 0,
        ;
        assert(step * ((axis_max - first) / step) <= axis_max - first) by (nonlinear_arith)
            requires
                step > 0,
                axis_max - first >= 0,
        ;
        assert(step * i >= 0) by (nonlinear_arith)
            requires
                step > 0,
                i >= 0,
        ;
        assert((first + step * i - 1) % 7 == 0) by (nonlinear_arith)
            requires
                (first - 1) % 7 == 0,
                step % 7 == 0,
                step == 7 * week_step(axis_max - axis_min),
                i >= 0,
        ;
    }
    assert forall|i: int| 0 < i < lines.len() implies #[trigger] lines[i] == lines[i - 1] + step by {
        assert(lines[i] == first + step * i);
        assert(lines[i - 1] == first + step * (i - 1));
        assert(step * i == step * (i - 1) + step) by (nonlinear_arith);
    }
    if lines.len() > 0 {
        assert(lines[0] == first + step * 0);
    }
    assert forall|d: int|
        axis_min <= d <= axis_max && (d - first) % step == 0 && d >= first implies lines.contains(d) by {
        let i = (d - first) / step;
        assert(d == first + step * i) by (nonlinear_arith)
            requires
                (d - first) % step == 0,
                i == (d - first) / step,
                step > 0,
        ;
        assert(0 <= i <= (axis_max - first) / step) by (nonlinear_arith)
            requires
                i == (d - first) / step,
                step > 0,
                0 <= d - first <= axis_max - first,
        ;
        assert(lines[i] == d);
    }
    assert forall|d: int| axis_min <= d < first implies !is_monday(d) by {
        assert((d - 1) % 7 == (r + (d - axis_min)) % 7) by (nonlinear_arith)
            requires
                r == (axis_min - 1) % 7,
                d >= axis_min,
        ;
    }
}

pub open spec fn week_gridline_view(g: (i64, String)) -> (int, Seq<char>) {
    (g.0 as int, g.1@)
}

pub open spec fn week_gridline_spec_view(day: int) -> (int, Seq<char>) {
    (day, week_label(day))
}

/// The weekly gridlines of an axis, each with its date label.
pub fn week_gridlines(axis_min: i64, axis_max: i64) -> (lines: Vec<(i64, String)>)
    requires
        -100_000_000 <= axis_min < axis_max <= 100_000_000,
    ensures
        lines@.map_values(|g: (i64, String)| week_gridline_view(g)) == week_gridlines_spec(
            axis_min as int,
            axis_max as int,
        ).map_values(|d: int| week_gridline_spec_view(d)),
        forall|i: int| 0 <= i < lines@.len() ==> axis_min <= #[trigger] lines@[i].0 <= axis_max,
{
    let ghost target = week_gridlines_spec(axis_min as int, axis_max as int);
    let mut lines: Vec<(i64, String)> = Vec::new();
    let min_date = date_from_day_number(axis_min as i32);
    let max_date = date_from_day_number(axis_max as i32);
    if min_date.is_none() || max_date.is_none() {
        assert(lines@.map_values(|g: (i64, String)| week_gridline_view(g)) =~= target.map_values(
            |d: int| week_gridline_spec_view(d),
        ));
        return lines;
    }
    let shifted: i64 = axis_min - 1 + 7 * 100_000_000;
    let r: i64 = shifted % 7;
    proof {
        assert(((axis_min - 1) + 7 * 100_000_000) % 7 == (axis_min - 1) % 7) by (nonlinear_arith);
    }
    let first: i64 = axis_min + (7 - r) % 7;
    let span: i64 = axis_max - axis_min;
    let weeks: i64 = if span <= 56 {
        1
    } else if span <= 112 {
        2
    } else if span <= 224 {
        4
    } else {
        8
    };
    let step: i64 = 7 * weeks;
    assert(first == first_monday_from(axis_min as int));
    assert(step == 7 * week_step(axis_max - axis_min));
    if first > axis_max {
        assert(lines@.map_values(|g: (i64, String)| week_gridline_view(g)) =~= target.map_values(
            |d: int| week_gridline_spec_view(d),
        ));
        return lines;
    }
    let ghost count = (axis_max - first) / (step as int) + 1;
    assert(target.len() == count);
    let mut day: i64 = first;
    let mut i: i64 = 0;
    while day <= axis_max
        invariant
            -100_000_000 <= axis_min < axis_max <= 100_000_000,
            is_chrono_day(axis_min as int),
            is_chrono_day(axis_max as int),
            axis_min <= first <= axis_max,
            step == 7 * week_step(axis_max - axis_min),
            7 <= step <= 56,
            first == first_monday_from(axis_min as int),
            target == week_gridlines_spec(axis_min as int, axis_max as int),
            count == (axis_max - first) / (step as int) + 1,
            target.len() == count,
            0 <= i,
            day == first + step * i,
            day <= axis_max ==> i < count,
            day > axis_max ==> i == count,
            i <= count,
            lines@.len() == i,
            forall|q: int| 0 <= q < target.len() ==> #[trigger] target[q] == first + step * q,
            lines@.map_values(|g: (i64, String)| week_gridline_view(g)) == target.take(i as int).map_values(
                |d: int| week_gridline_spec_view(d),
            ),
            forall|q: int| 0 <= q < lines@.len() ==> axis_min <= #[trigger] lines@[q].0 <= axis_max,
        decreases count - i,
    {
        let date = date_from_day_number(day as i32);
        let (y, m, d) = match date {
            Some(t) => t,
            None => {
                assert(false);
                (0, 1, 1)
            },
        };
        proof {
            lemma_date_of_day(y as int, m as int, d as int);
            lemma_date_in_month(y as int, m as int, d as int);
        }
        let mut label = String::from_str(month_abbrev(m - 1));
        label.append(" ");
        push_nat(&mut label, d as u128);
        proof {
            reveal_strlit(" ");
            assert(label@ =~= week_label(day as int));
        }
        let ghost before = lines@.map_values(|g: (i64, String)| week_gridline_view(g));
        lines.push((day, label));
        proof {
            assert(target.take(i + 1) =~= target.take(i as int).push(target[i as int]));
            assert(lines@.map_values(|g: (i64, String)| week_gridline_view(g)) =~= before.push(
                (day as int, label@),
            ));
        }
        proof {
            assert(first + step * (i + 1) == first + step * i + step) by (nonlinear_arith);
        }
        day = day + step;
        i = i + 1;
        proof {
            if day <= axis_max {
                assert(i < count) by (nonlinear_arith)
                    requires
                        day == first + step * i,
                        day <= axis_max,
                        count == (axis_max - first) / (step as int) + 1,
                        step > 0,
                ;
            } else {
                assert(i == count) by (nonlinear_arith)
                    requires
                        day == first + step * i,
                        day > axis_max,
                        first + step * (i - 1) <= axis_max,
                        count == (axis_max - first) / (step as int) + 1,
                        step > 0,
                        first <= axis_max,
                ;
            }
        }
    }
    assert(target.take(i as int) =~= target);
    lines
}

/// The lowest of the days and 0.
pub open spec fn min_day_with_zero(days: Seq<i64>) -> int
    decreases days.len(),
{
    if days.len() == 0 {
        0
    } else {
        let m = min_day_with_zero(days.drop_last());
        if (days.last() as int) < m { days.last() as int } else { m }
    }
}

/// The highest of the days and 0.
pub open spec fn max_day_with_zero(days: Seq<i64>) -> int
    decreases days.len(),
{
    if days.len() == 0 {
        0
    } else {
        let m = max_day_with_zero(days.drop_last());
        if (days.last() as int) > m { days.last() as int } else { m }
    }
}

/// The x-axis of a metric chart: from the lowest to the highest day of its
/// points, always widened to include day 0 (Fermentation Start), so every
/// chart shares that anchor.
pub fn chart_day_range(days: &[i64]) -> (r: (i64, i64))
    ensures
        r.0 == min_day_with_zero(days@),
        r.1 == max_day_with_zero(days@),
        r.0 <= 0 <= r.1,
        forall|i: int| 0 <= i < days@.len() ==> r.0 <= #[trigger] days@[i] <= r.1,
{
    let mut lo: i64 = 0;
    let mut hi: i64 = 0;
    let mut i: usize = 0;
    while i < days.len()
        invariant
            0 <= i <= days@.len(),
            lo == min_day_with_zero(days@.take(i as int)),
            hi == max_day_with_zero(days@.take(i as int)),
            lo <= 0 <= hi,
            forall|q: int| 0 <= q < i ==> lo <= #[trigger] days@[q] <= hi,
        decreases days@.len() - i,
    {
        assert(days@.take(i + 1).drop_last() =~= days@.take(i as int));
        if days[i] < lo {
            lo = days[i];
        }
        if days[i] > hi {
            hi = days[i];
        }
        i = i + 1;
    }
    assert(days@.take(days@.len() as int) =~= days@);
    (lo, hi)
}

/// Label of a day tick: day 0 reads "Fermentation Start", every other tick
/// its day number.
pub fn day_tick_label(day: i64) -> (label: String)
    ensures
        label@ == (if day == 0 { "Fermentation Start"@ } else { int_text(day as int) }),
{
    if day == 0 {
        String::from_str("Fermentation Start")
    } else {
        let mut label = String::new();
        push_int(&mut label, day as i128);
        label
    }
}

/// The fixed palette cycled across the selected batches.
pub open spec fn palette_color(i: int) -> Seq<char> {
    let k = i % 6;
    if k == 0 { "#2c3e50"@ }
    else if k == 1 { "#5b7a4f"@ }
    else if k == 2 { "#a3623e"@ }
    else if k == 3 { "#7a4f7a"@ }
    else if k == 4 { "#4f7a7a"@ }
    else { "#a33333"@ }
}

/// Color of the `i`-th series of a metric chart.
pub fn series_color(i: usize) -> (c: &'static str)
    ensures
        c@ == palette_color(i as int),
{
    let k = i % 6;
    if k == 0 { "#2c3e50" }
    else if k == 1 { "#5b7a4f" }
    else if k == 2 { "#a3623e" }
    else if k == 3 { "#7a4f7a" }
    else if k == 4 { "#4f7a7a" }
    else { "#a33333" }
}

pub open spec fn legend_item_text(i: int, code: Seq<char>) -> Seq<char> {
    "<span class=\"chart-legend__item\"><span class=\"chart-legend__swatch\" style=\"background:"@
        + palette_color(i) + "\"></span>"@ + code + "</span>"@
}

pub open spec fn legend_items_text(codes: Seq<String>) -> Seq<char>
    decreases codes.len(),
{
    if codes.len() == 0 {
        seq![]
    } else {
        legend_items_text(codes.drop_last()) + legend_item_text(
            codes.len() - 1,
            codes.last()@,
        )
    }
}

/// The legend under a metric chart: one swatch per series, in the
/// series' palette color, labelled with its batch code.
pub fn line_chart_legend(batch_codes: &[String]) -> (legend: String)
    ensures
        legend@ == "<div class=\"chart-legend\">"@ + legend_items_text(batch_codes@) + "</div>"@,
{
    let mut out = String::from_str("<div class=\"chart-legend\">");
    let ghost start = out@;
    let mut i: usize = 0;
    while i < batch_codes.len()
        invariant
            0 <= i <= batch_codes@.len(),
            start == "<div class=\"chart-legend\">"@,
            out@ == start + legend_items_text(batch_codes@.take(i as int)),
        decreases batch_codes@.len() - i,
    {
        assert(batch_codes@.take(i + 1).drop_last() =~= batch_codes@.take(i as int));
        out.append("<span class=\"chart-legend__item\"><span class=\"chart-legend__swatch\" style=\"background:");
        out.append(series_color(i));
        out.append("\"></span>");
        out.append(batch_codes[i].as_str());
        out.append("</span>");
        i = i + 1;
        assert(out@ =~= start + legend_items_text(batch_codes@.take(i as int)));
    }
    assert(batch_codes@.take(batch_codes@.len() as int) =~= batch_codes@);
    out.append("</div>");
    out
}

// ---------------------------------------------------------------------
// Season overview timeline
// ---------------------------------------------------------------------

/// A timeline row with its dates resolved to day numbers; `start` and `end`
/// keep the date texts as stored, which label the axis ends.
pub struct ResolvedRow {
    pub code: String,
    pub start: String,
    pub end: String,
    pub start_day: i64,
    pub end_day: i64,
    pub racking_day: Option<i64>,
    pub bottling_day: Option<i64>,
    pub failed_day: Option<i64>,
}

pub open spec fn is_chrono_day_opt(d: Option<i64>) -> bool {
    d matches Some(n) ==> is_chrono_day(n as int)
}

/// A row the timeline can draw: all its days are real dates, and unless
/// the batch failed its bar does not end before it starts (the phase
/// boundaries are clamped into `[start, end]`).
pub open spec fn drawable_row(r: ResolvedRow) -> bool {
    &&& is_chrono_day(r.start_day as int)
    &&& is_chrono_day(r.end_day as int)
    &&& is_chrono_day_opt(r.racking_day)
    &&& is_chrono_day_opt(r.bottling_day)
    &&& is_chrono_day_opt(r.failed_day)
    &&& (r.failed_day is Some || r.start_day <= r.end_day)
}

pub open spec fn drawable(bars: Seq<ResolvedRow>) -> bool {
    forall|i: int| 0 <= i < bars.len() ==> drawable_row(#[trigger] bars[i])
}

/// Earliest start day among the first `k` bars.
pub open spec fn min_start(bars: Seq<ResolvedRow>, k: int) -> int
    decreases k,
{
    if k <= 1 {
        bars[0].start_day as int
    } else {
        let m = min_start(bars, k - 1);
        if (bars[k - 1].start_day as int) < m { bars[k - 1].start_day as int } else { m }
    }
}

/// Latest end day among the first `k` bars.
pub open spec fn max_end(bars: Seq<ResolvedRow>, k: int) -> int
    decreases k,
{
    if k <= 1 {
        bars[0].end_day as int
    } else {
        let m = max_end(bars, k - 1);
        if (bars[k - 1].end_day as int) > m { bars[k - 1].end_day as int } else { m }
    }
}

/// Left end of the shared axis: three days before the earliest start.
pub open spec fn axis_min(bars: Seq<ResolvedRow>) -> int {
    min_start(bars, bars.len() as int) - 3
}

/// Right end of the shared axis: three days after the latest end, and at
/// least one day right of the left end.
pub open spec fn axis_max(bars: Seq<ResolvedRow>) -> int {
    let hi = max_end(bars, bars.len() as int) + 3;
    if hi > axis_min(bars) + 1 { hi } else { axis_min(bars) + 1 }
}

proof fn lemma_min_start(bars: Seq<ResolvedRow>, k: int)
    requires
        1 <= k <= bars.len(),
    ensures
        forall|j: int| 0 <= j < k ==> min_start(bars, k) <= (#[trigger] bars[j]).start_day,
        exists|j: int| 0 <= j < k && min_start(bars, k) == (#[trigger] bars[j]).start_day,
    decreases k,
{
    if k > 1 {
        lemma_min_start(bars, k - 1);
        let w = choose|j: int| 0 <= j < k - 1 && min_start(bars, k - 1) == (#[trigger] bars[j]).start_day;
        if (bars[k - 1].start_day as int) < min_start(bars, k - 1) {
            assert(min_start(bars, k) == bars[k - 1].start_day);
        } else {
            assert(min_start(bars, k) == bars[w].start_day);
        }
    } else {
        assert(min_start(bars, k) == bars[0].start_day);
    }
}

proof fn lemma_max_end(bars: Seq<ResolvedRow>, k: int)
    requires
        1 <= k <= bars.len(),
    ensures
        forall|j: int| 0 <= j < k ==> (#[trigger] bars[j]).end_day <= max_end(bars, k),
        exists|j: int| 0 <= j < k && max_end(bars, k) == (#[trigger] bars[j]).end_day,
    decreases k,
{
    if k > 1 {
        lemma_max_end(bars, k - 1);
        let w = choose|j: int| 0 <= j < k - 1 && max_end(bars, k - 1) == (#[trigger] bars[j]).end_day;
        if (bars[k - 1].end_day as int) > max_end(bars, k - 1) {
            assert(max_end(bars, k) == bars[k - 1].end_day);
        } else {
            assert(max_end(bars, k) == bars[w].end_day);
        }
    } else {
        assert(max_end(bars, k) == bars[0].end_day);
    }
}

/// Every bar of the Season overview sits on one shared axis that starts
/// exactly three days before the earliest start and ends three days after
/// the latest end (or one day after its start, if that is later): no bar
/// reaches within three days of either end.
pub proof fn law_timeline_axis_spans_every_bar(bars: Seq<ResolvedRow>)
    requires
        bars.len() > 0,
    ensures
        forall|i: int|
            0 <= i < bars.len() ==> axis_min(bars) + 3 <= (#[trigger] bars[i]).start_day && bars[i].end_day + 3
                <= axis_max(bars),
        exists|i: int| 0 <= i < bars.len() && (#[trigger] bars[i]).start_day == axis_min(bars) + 3,
        axis_min(bars) < axis_max(bars),
{
    lemma_min_start(bars, bars.len() as int);
    lemma_max_end(bars, bars.len() as int);
}

/// Horizontal position of a day, written with one decimal: the plot runs
/// from x = 90 to x = 620 across the axis, and the position is computed
/// in `f64` as `90 + (day - lo) / span * 530`.
pub open spec fn x_text(day: int, lo: int, span: int) -> Seq<char> {
    binary_text(timeline_x(day, lo, span))
}

pub open spec fn num_text(v: int) -> Seq<char> {
    decimal1(v, 1)
}

pub open spec fn clamp_day(v: int, lo: int, hi: int) -> int {
    if v < lo { lo } else if v > hi { hi } else { v }
}

pub open spec fn svg_open_text(n: int) -> Seq<char> {
    "<svg viewBox=\"0 0 640 "@ + int_text(42 + 34 * n)
        + "\" xmlns=\"http://www.w3.org/2000/svg\" class=\"chart-svg\">"@
}

pub open spec fn gridline_text(day: int, label: Seq<char>, lo: int, span: int, n: int) -> Seq<char> {
    "<line x1=\""@ + x_text(day, lo, span) + "\" y1=\"16.0\" x2=\""@ + x_text(day, lo, span)
        + "\" y2=\""@ + num_text(22 + 34 * n) + "\" stroke=\"#ddd6c8\" stroke-width=\"1\" />"@
        + "<text x=\""@ + x_text(day, lo, span) + "\" y=\""@ + num_text(38 + 34 * n)
        + "\" font-size=\"11\" fill=\"#746f66\" text-anchor=\"middle\">"@ + label + "</text>"@
}

pub open spec fn gridlines_text(lines: Seq<int>, lo: int, span: int, n: int) -> Seq<char>
    decreases lines.len(),
{
    if lines.len() == 0 {
        seq![]
    } else {
        gridlines_text(lines.drop_last(), lo, span, n) + gridline_text(lines.last(), week_label(lines.last()), lo, span, n)
    }
}

/// A phase segment between two days (in either order) on the row at `y`:
/// it starts at the smaller of the two positions and is as wide as their
/// `f64` difference.
pub open spec fn segment_text(d0: int, d1: int, y: int, color: Seq<char>, lo: int, span: int) -> Seq<
    char,
> {
    let x0 = timeline_x(d0, lo, span);
    let x1 = timeline_x(d1, lo, span);
    let a = if binary_ge(x1, x0) { x0 } else { x1 };
    let b = if binary_ge(x1, x0) { x1 } else { x0 };
    "<rect x=\""@ + binary_text(a) + "\" y=\""@ + num_text(y) + "\" width=\""@ + binary_text(binary_sub(b, a))
        + "\" height=\"16.0\" fill=\""@ + color + "\" rx=\"2\" />"@
}

pub open spec fn dot_text(day: int, cy: int, color: Seq<char>, lo: int, span: int) -> Seq<char> {
    "<circle cx=\""@ + x_text(day, lo, span) + "\" cy=\""@ + num_text(cy) + "\" r=\"5\" fill=\""@
        + color + "\" />"@
}

pub open spec fn bottling_mark_text(day: int, cy: int, lo: int, span: int) -> Seq<char> {
    "<circle cx=\""@ + x_text(day, lo, span) + "\" cy=\""@ + num_text(cy)
        + "\" r=\"4\" fill=\"#2c3e50\" />"@
}

/// Color of a zero-width bar's dot: failed, else bottled, else fermenting.
pub open spec fn dot_color(r: ResolvedRow) -> Seq<char> {
    if r.failed_day is Some {
        "#a33333"@
    } else if r.bottling_day is Some {
        "#2c3e50"@
    } else {
        "#5b7a4f"@
    }
}

/// The shapes of one bar: a dot for a zero-width bar; one failed segment
/// over the whole bar for a failed batch; otherwise fermenting from the
/// start to the first racking (or the end), conditioning from the racking
/// to the end, and a bottling marker. Phase boundaries are clamped to the
/// bar.
pub open spec fn bar_shapes_text(r: ResolvedRow, i: int, lo: int, span: int) -> Seq<char> {
    let y = 16 + 34 * i;
    let cy = y + 8;
    let start = r.start_day as int;
    let end = r.end_day as int;
    if start == end {
        dot_text(start, cy, dot_color(r), lo, span)
    } else if r.failed_day is Some {
        segment_text(start, r.failed_day.unwrap() as int, y, "#a33333"@, lo, span)
    } else {
        let fermenting_end = clamp_day(
            if r.racking_day is Some { r.racking_day.unwrap() as int } else { end },
            start,
            end,
        );
        let conditioning = if r.racking_day is Some {
            let cs = clamp_day(r.racking_day.unwrap() as int, start, end);
            if end > cs {
                segment_text(cs, end, y, "#a3623e"@, lo, span)
            } else {
                seq![]
            }
        } else {
            seq![]
        };
        let bottled = if r.bottling_day is Some {
            bottling_mark_text(r.bottling_day.unwrap() as int, cy, lo, span)
        } else {
            seq![]
        };
        segment_text(start, fermenting_end, y, "#5b7a4f"@, lo, span) + conditioning + bottled
    }
}

/// One bar's row: its code as a label left of the plot, then its shapes.
pub open spec fn bar_text(r: ResolvedRow, i: int, lo: int, span: int) -> Seq<char> {
    "<text x=\"82.0\" y=\""@ + num_text(28 + 34 * i)
        + "\" font-size=\"12\" fill=\"#3a352c\" text-anchor=\"end\">"@ + r.code@ + "</text>"@
        + bar_shapes_text(r, i, lo, span)
}

/// Text `t` appears in `s` as one contiguous piece.
pub open spec fn contains_text(s: Seq<char>, t: Seq<char>) -> bool {
    exists|i: int| 0 <= i && i + t.len() <= s.len() && #[trigger] s.subrange(i, i + t.len()) == t
}

proof fn lemma_contains_middle(a: Seq<char>, b: Seq<char>, c: Seq<char>)
    ensures
        contains_text(a + b + c, b),
{
    let s = a + b + c;
    assert(s.subrange(a.len() as int, (a.len() + b.len()) as int) =~= b);
}

/// A racked batch that has not failed shows its conditioning: from the
/// racking day (held inside the bar) to the bar's end, a conditioning
/// segment is drawn whenever that stretch is not empty, whether or not the
/// batch has been bottled. Before it the bar shows its fermenting stretch
/// from the start.
pub proof fn law_racked_bars_show_conditioning(r: ResolvedRow, i: int, lo: int, span: int)
    requires
        r.failed_day is None,
        r.start_day != r.end_day,
        r.racking_day is Some,
        (r.end_day as int) > clamp_day(r.racking_day.unwrap() as int, r.start_day as int, r.end_day as int),
    ensures
        ({
            let cs = clamp_day(r.racking_day.unwrap() as int, r.start_day as int, r.end_day as int);
            &&& contains_text(bar_text(r, i, lo, span), segment_text(cs, r.end_day as int, 16 + 34 * i, "#a3623e"@, lo, span))
            &&& contains_text(bar_text(r, i, lo, span), segment_text(r.start_day as int, cs, 16 + 34 * i, "#5b7a4f"@, lo, span))
        }),
{
    let y = 16 + 34 * i;
    let cy = y + 8;
    let cs = clamp_day(r.racking_day.unwrap() as int, r.start_day as int, r.end_day as int);
    let label = "<text x=\"82.0\" y=\""@ + num_text(28 + 34 * i)
        + "\" font-size=\"12\" fill=\"#3a352c\" text-anchor=\"end\">"@ + r.code@ + "</text>"@;
    let fermenting = segment_text(r.start_day as int, cs, y, "#5b7a4f"@, lo, span);
    let conditioning = segment_text(cs, r.end_day as int, y, "#a3623e"@, lo, span);
    let bottled = if r.bottling_day is Some {
        bottling_mark_text(r.bottling_day.unwrap() as int, cy, lo, span)
    } else {
        seq![]
    };
    assert(bar_text(r, i, lo, span) =~= (label + fermenting) + conditioning + bottled);
    lemma_contains_middle(label + fermenting, conditioning, bottled);
    assert(bar_text(r, i, lo, span) =~= label + fermenting + (conditioning + bottled));
    lemma_contains_middle(label, fermenting, conditioning + bottled);
}

/// A failed batch is drawn in the failed colour: a batch whose bar has no
/// width is a failed dot, and any other failed bar is one failed segment
/// from its start to the failure.
pub proof fn law_failed_bars_are_drawn_failed(r: ResolvedRow, i: int, lo: int, span: int)
    requires
        r.failed_day is Some,
    ensures
        r.start_day == r.end_day ==> contains_text(
            bar_text(r, i, lo, span),
            dot_text(r.start_day as int, 24 + 34 * i, "#a33333"@, lo, span),
        ),
        r.start_day != r.end_day ==> contains_text(
            bar_text(r, i, lo, span),
            segment_text(r.start_day as int, r.failed_day.unwrap() as int, 16 + 34 * i, "#a33333"@, lo, span),
        ),
{
    let label = "<text x=\"82.0\" y=\""@ + num_text(28 + 34 * i)
        + "\" font-size=\"12\" fill=\"#3a352c\" text-anchor=\"end\">"@ + r.code@ + "</text>"@;
    let shape = if r.start_day == r.end_day {
        dot_text(r.start_day as int, 24 + 34 * i, "#a33333"@, lo, span)
    } else {
        segment_text(r.start_day as int, r.failed_day.unwrap() as int, 16 + 34 * i, "#a33333"@, lo, span)
    };
    assert(bar_text(r, i, lo, span) =~= label + shape + seq![]);
    lemma_contains_middle(label, shape, seq![]);
}

/// The rows of the first `k` bars.
pub open spec fn bars_text(bars: Seq<ResolvedRow>, k: int, lo: int, span: int) -> Seq<char>
    decreases k,
{
    if k <= 0 {
        seq![]
    } else {
        bars_text(bars, k - 1, lo, span) + bar_text(bars[k - 1], k - 1, lo, span)
    }
}

pub open spec fn timeline_legend() -> Seq<char> {
    "<div class=\"chart-legend\">
            <span class=\"chart-legend__item\"><span class=\"chart-legend__swatch\" style=\"background:#5b7a4f\"></span>Fermenting</span>
            <span class=\"chart-legend__item\"><span class=\"chart-legend__swatch\" style=\"background:#a3623e\"></span>Conditioning</span>
            <span class=\"chart-legend__item\"><span class=\"chart-legend__swatch\" style=\"background:#2c3e50\"></span>Bottled</span>
            <span class=\"chart-legend__item\"><span class=\"chart-legend__swatch\" style=\"background:#a33333\"></span>Failed</span>
        </div>"@
}

/// The axis line, the closing tag and the legend.
pub open spec fn timeline_tail_text(n: int) -> Seq<char> {
    "<line x1=\"90.0\" y1=\""@ + num_text(22 + 34 * n) + "\" x2=\"620.0\" y2=\""@ + num_text(22 + 34 * n)
        + "\" stroke=\"#8899aa\" stroke-width=\"1\" />"@ + "</svg>"@ + timeline_legend()
}

pub open spec fn no_batches_text() -> Seq<char> {
    "<p class=\"muted\">No batches with logged events yet.</p>"@
}

/// The Season overview SVG for bars whose dates are resolved.
pub open spec fn timeline_svg(bars: Seq<ResolvedRow>) -> Seq<char> {
    if bars.len() == 0 {
        no_batches_text()
    } else {
        let n = bars.len() as int;
        let lo = axis_min(bars);
        let hi = axis_max(bars);
        let span = hi - lo;
        svg_open_text(n) + gridlines_text(week_gridlines_spec(lo, hi), lo, span, n) + bars_text(
            bars,
            n,
            lo,
            span,
        ) + timeline_tail_text(n)
    }
}

/// Bounds that keep every coordinate computation of the timeline well
/// inside `i128` (chrono day numbers are below 10^8 in magnitude).
pub open spec fn coord_ok(day: int, lo: int, span: int) -> bool {
    &&& -1_000_000_000 <= day <= 1_000_000_000
    &&& -1_000_000_000 <= lo <= 1_000_000_000
    &&& 0 < span <= 3_000_000_000
}

fn push_x(out: &mut String, day: i64, lo: i64, span: i64)
    requires
        coord_ok(day as int, lo as int, span as int),
    ensures
        final(out)@ == old(out)@ + x_text(day as int, lo as int, span as int),
{
    let x = timeline_x_exec(day, lo, span);
    push_binary(out, x);
}

fn push_num(out: &mut String, v: i128)
    requires
        -0x1_0000_0000_0000_0000_0000 <= v <= 0x1_0000_0000_0000_0000_0000,
    ensures
        final(out)@ == old(out)@ + num_text(v as int),
{
    push_decimal1(out, v, 1);
}

fn push_gridline(out: &mut String, day: i64, label: &str, lo: i64, span: i64, n: u64)
    requires
        coord_ok(day as int, lo as int, span as int),
    ensures
        final(out)@ == old(out)@ + gridline_text(day as int, label@, lo as int, span as int, n as int),
{
    let axis_y: i128 = 22 + 34 * (n as i128);
    out.append("<line x1=\"");
    push_x(out, day, lo, span);
    out.append("\" y1=\"16.0\" x2=\"");
    push_x(out, day, lo, span);
    out.append("\" y2=\"");
    push_num(out, axis_y);
    out.append("\" stroke=\"#ddd6c8\" stroke-width=\"1\" />");
    out.append("<text x=\"");
    push_x(out, day, lo, span);
    out.append("\" y=\"");
    push_num(out, axis_y + 16);
    out.append("\" font-size=\"11\" fill=\"#746f66\" text-anchor=\"middle\">");
    out.append(label);
    out.append("</text>");
    assert(final(out)@ =~= old(out)@ + gridline_text(day as int, label@, lo as int, span as int, n as int));
}

/// Appends one phase segment; the two days may come in either order.
fn draw_segment(out: &mut String, d0: i64, d1: i64, y: i128, color: &str, lo: i64, span: i64)
    requires
        coord_ok(d0 as int, lo as int, span as int),
        coord_ok(d1 as int, lo as int, span as int),
        0 <= y <= 0x1_0000_0000_0000_0000,
    ensures
        final(out)@ == old(out)@ + segment_text(d0 as int, d1 as int, y as int, color@, lo as int, span as int),
{
    let x0 = timeline_x_exec(d0, lo, span);
    let x1 = timeline_x_exec(d1, lo, span);
    let (a, b) = if binary_ge_exec(x1, x0) { (x0, x1) } else { (x1, x0) };
    out.append("<rect x=\"");
    push_binary(out, a);
    out.append("\" y=\"");
    push_num(out, y);
    out.append("\" width=\"");
    let w = binary_sub_exec(b, a);
    push_binary(out, w);
    out.append("\" height=\"16.0\" fill=\"");
    out.append(color);
    out.append("\" rx=\"2\" />");
    assert(final(out)@ =~= old(out)@ + segment_text(d0 as int, d1 as int, y as int, color@, lo as int, span as int));
}

fn push_dot(out: &mut String, day: i64, cy: i128, color: &str, lo: i64, span: i64)
    requires
        coord_ok(day as int, lo as int, span as int),
        0 <= cy <= 0x1_0000_0000_0000_0000,
    ensures
        final(out)@ == old(out)@ + dot_text(day as int, cy as int, color@, lo as int, span as int),
{
    out.append("<circle cx=\"");
    push_x(out, day, lo, span);
    out.append("\" cy=\"");
    push_num(out, cy);
    out.append("\" r=\"5\" fill=\"");
    out.append(color);
    out.append("\" />");
    assert(final(out)@ =~= old(out)@ + dot_text(day as int, cy as int, color@, lo as int, span as int));
}

fn push_bottling_mark(out: &mut String, day: i64, cy: i128, lo: i64, span: i64)
    requires
        coord_ok(day as int, lo as int, span as int),
        0 <= cy <= 0x1_0000_0000_0000_0000,
    ensures
        final(out)@ == old(out)@ + bottling_mark_text(day as int, cy as int, lo as int, span as int),
{
    out.append("<circle cx=\"");
    push_x(out, day, lo, span);
    out.append("\" cy=\"");
    push_num(out, cy);
    out.append("\" r=\"4\" fill=\"#2c3e50\" />");
    assert(final(out)@ =~= old(out)@ + bottling_mark_text(day as int, cy as int, lo as int, span as int));
}

fn clamp(v: i64, lo: i64, hi: i64) -> (r: i64)
    requires
        lo <= hi,
    ensures
        r == clamp_day(v as int, lo as int, hi as int),
{
    if v < lo { lo } else if v > hi { hi } else { v }
}

#[verifier::spinoff_prover]
#[verifier::rlimit(40)]
fn push_bar(out: &mut String, r: &ResolvedRow, i: u64, lo: i64, span: i64)
    requires
        drawable_row(*r),
        coord_ok(r.start_day as int, lo as int, span as int),
        i <= 0x1_0000_0000,
    ensures
        final(out)@ == old(out)@ + bar_text(*r, i as int, lo as int, span as int),
{
    let y: i128 = 16 + 34 * (i as i128);
    let cy: i128 = y + 8;
    let ghost before = out@;
    out.append("<text x=\"82.0\" y=\"");
    push_num(out, cy + 4);
    out.append("\" font-size=\"12\" fill=\"#3a352c\" text-anchor=\"end\">");
    out.append(r.code.as_str());
    out.append("</text>");
    let ghost after_label = out@;
    if r.start_day == r.end_day {
        let color = if r.failed_day.is_some() {
            "#a33333"
        } else if r.bottling_day.is_some() {
            "#2c3e50"
        } else {
            "#5b7a4f"
        };
        push_dot(out, r.start_day, cy, color, lo, span);
    } else if let Some(failed_day) = r.failed_day {
        draw_segment(out, r.start_day, failed_day, y, "#a33333", lo, span);
    } else {
        let fermenting_end = clamp(
            match r.racking_day {
                Some(d) => d,
                None => r.end_day,
            },
            r.start_day,
            r.end_day,
        );
        draw_segment(out, r.start_day, fermenting_end, y, "#5b7a4f", lo, span);
        let ghost after_fermenting = out@;
        if let Some(racking_day) = r.racking_day {
            let conditioning_start = clamp(racking_day, r.start_day, r.end_day);
            if r.end_day > conditioning_start {
                draw_segment(out, conditioning_start, r.end_day, y, "#a3623e", lo, span);
            }
        }
        let ghost after_conditioning = out@;
        if let Some(bottling_day) = r.bottling_day {
            push_bottling_mark(out, bottling_day, cy, lo, span);
        }
        assert(out@ =~= after_label + bar_shapes_text(*r, i as int, lo as int, span as int)) by {
            assert(after_conditioning =~= after_fermenting + (if r.racking_day is Some {
                let cs = clamp_day(r.racking_day.unwrap() as int, r.start_day as int, r.end_day as int);
                if r.end_day > cs {
                    segment_text(cs, r.end_day as int, y as int, "#a3623e"@, lo as int, span as int)
                } else {
                    seq![]
                }
            } else {
                seq![]
            }));
        }
    }
    assert(final(out)@ =~= old(out)@ + bar_text(*r, i as int, lo as int, span as int));
}

/// Earliest start and latest end of the bars.
fn timeline_extremes(bars: &[ResolvedRow]) -> (r: (i64, i64))
    requires
        drawable(bars@),
        bars@.len() >= 1,
    ensures
        r.0 == min_start(bars@, bars@.len() as int),
        r.1 == max_end(bars@, bars@.len() as int),
        is_chrono_day(r.0 as int),
        is_chrono_day(r.1 as int),
{
    let n = bars.len();
    let ghost bs = bars@;
    let mut min_day: i64 = bars[0].start_day;
    let mut max_day: i64 = bars[0].end_day;
    let mut i: usize = 1;
    assert(drawable_row(bs[0]));
    while i < n
        invariant
            n == bs.len(),
            bs == bars@,
            drawable(bs),
            1 <= i <= n,
            min_day == min_start(bs, i as int),
            max_day == max_end(bs, i as int),
            is_chrono_day(min_day as int),
            is_chrono_day(max_day as int),
        decreases n - i,
    {
        assert(drawable_row(bs[i as int]));
        if bars[i].start_day < min_day {
            min_day = bars[i].start_day;
        }
        if bars[i].end_day > max_day {
            max_day = bars[i].end_day;
        }
        i = i + 1;
    }
    (min_day, max_day)
}

fn push_gridlines(out: &mut String, lo: i64, hi: i64, n: u64)
    requires
        -100_000_000 <= lo < hi <= 100_000_000,
    ensures
        final(out)@ == old(out)@ + gridlines_text(
            week_gridlines_spec(lo as int, hi as int),
            lo as int,
            (hi - lo) as int,
            n as int,
        ),
{
    let span = hi - lo;
    let gridlines = week_gridlines(lo, hi);
    let ghost gspec = week_gridlines_spec(lo as int, hi as int);
    let ghost before = out@;
    proof {
        assert(gridlines@.len() == gspec.len()) by {
            assert(gridlines@.map_values(|g: (i64, String)| week_gridline_view(g)).len() == gspec.map_values(
                |d: int| week_gridline_spec_view(d),
            ).len());
        }
    }
    let mut j: usize = 0;
    while j < gridlines.len()
        invariant
            0 <= j <= gridlines@.len(),
            gridlines@.len() == gspec.len(),
            gridlines@.map_values(|g: (i64, String)| week_gridline_view(g)) == gspec.map_values(
                |d: int| week_gridline_spec_view(d),
            ),
            forall|q: int| 0 <= q < gridlines@.len() ==> lo <= #[trigger] gridlines@[q].0 <= hi,
            out@ == before + gridlines_text(gspec.take(j as int), lo as int, span as int, n as int),
            -100_000_000 <= lo < hi <= 100_000_000,
            span == hi - lo,
        decreases gridlines@.len() - j,
    {
        let day = gridlines[j].0;
        proof {
            assert(week_gridline_view(gridlines@[j as int]) == week_gridline_spec_view(gspec[j as int])) by {
                assert(gridlines@.map_values(|g: (i64, String)| week_gridline_view(g))[j as int]
                    == gspec.map_values(|d: int| week_gridline_spec_view(d))[j as int]);
            }
            assert(gspec.take(j + 1).drop_last() =~= gspec.take(j as int));
            assert(lo <= gridlines@[j as int].0 <= hi);
        }
        push_gridline(out, day, gridlines[j].1.as_str(), lo, span, n);
        j = j + 1;
    }
    assert(gspec.take(gridlines@.len() as int) =~= gspec);
}

fn push_bars(out: &mut String, bars: &[ResolvedRow], lo: i64, span: i64)
    requires
        drawable(bars@),
        bars@.len() <= 0x1_0000_0000,
        -100_000_000 <= lo <= 100_000_000,
        0 < span <= 300_000_000,
    ensures
        final(out)@ == old(out)@ + bars_text(bars@, bars@.len() as int, lo as int, span as int),
{
    let n = bars.len();
    let ghost before = out@;
    let mut k: usize = 0;
    while k < n
        invariant
            n == bars@.len(),
            drawable(bars@),
            0 <= k <= n,
            n <= 0x1_0000_0000,
            out@ == before + bars_text(bars@, k as int, lo as int, span as int),
            -100_000_000 <= lo <= 100_000_000,
            0 < span <= 300_000_000,
        decreases n - k,
    {
        assert(drawable_row(bars@[k as int]));
        push_bar(out, &bars[k], k as u64, lo, span);
        k = k + 1;
    }
}

fn push_timeline_tail(out: &mut String, n: u64)
    ensures
        final(out)@ == old(out)@ + timeline_tail_text(n as int),
{
    let axis_y: i128 = 22 + 34 * (n as i128);
    out.append("<line x1=\"90.0\" y1=\"");
    push_num(out, axis_y);
    out.append("\" x2=\"620.0\" y2=\"");
    push_num(out, axis_y);
    out.append("\" stroke=\"#8899aa\" stroke-width=\"1\" />");
    out.append("</svg>");
    out.append("<div class=\"chart-legend\">
            <span class=\"chart-legend__item\"><span class=\"chart-legend__swatch\" style=\"background:#5b7a4f\"></span>Fermenting</span>
            <span class=\"chart-legend__item\"><span class=\"chart-legend__swatch\" style=\"background:#a3623e\"></span>Conditioning</span>
            <span class=\"chart-legend__item\"><span class=\"chart-legend__swatch\" style=\"background:#2c3e50\"></span>Bottled</span>
            <span class=\"chart-legend__item\"><span class=\"chart-legend__swatch\" style=\"background:#a33333\"></span>Failed</span>
        </div>");
    assert(final(out)@ =~= old(out)@ + timeline_tail_text(n as int));
}

/// Renders the Season overview for rows whose dates are already resolved
/// to day numbers: one horizontal row per batch on one shared x-axis, the
/// weekly gridlines behind them, and a fixed phase legend.
pub fn render_timeline_bars(bars: &[ResolvedRow]) -> (svg: String)
    requires
        drawable(bars@),
        bars@.len() <= 0x1_0000_0000,
    ensures
        svg@ == timeline_svg(bars@),
{
    let n = bars.len();
    if n == 0 {
        return String::from_str("<p class=\"muted\">No batches with logged events yet.</p>");
    }
    let (min_day, max_day) = timeline_extremes(bars);
    let lo: i64 = min_day - 3;
    let hi: i64 = if max_day + 3 > lo + 1 { max_day + 3 } else { lo + 1 };
    let span: i64 = hi - lo;
    let mut out = String::from_str("<svg viewBox=\"0 0 640 ");
    push_int(&mut out, 42 + 34 * (n as i128));
    out.append("\" xmlns=\"http://www.w3.org/2000/svg\" class=\"chart-svg\">");
    let ghost opened = out@;
    push_gridlines(&mut out, lo, hi, n as u64);
    let ghost gridded = out@;
    push_bars(&mut out, bars, lo, span);
    let ghost barred = out@;
    push_timeline_tail(&mut out, n as u64);
    proof {
        let nn = n as int;
        assert(opened =~= svg_open_text(nn));
        assert(axis_min(bars@) == lo);
        assert(axis_max(bars@) == hi);
    }
    assert(out@ =~= timeline_svg(bars@));
    out
}

/// A date text resolved through `day_offset`'s named result.
pub open spec fn resolve_day(t: Option<String>) -> Option<i64> {
    match t {
        Some(text) => iso_day_number(text@),
        None => None,
    }
}

/// The timeline rows whose start and end both parse, with their dates
/// resolved to day numbers; rows that do not parse are left out.
pub open spec fn resolve_rows(rows: Seq<BatchTimelineRow>) -> Seq<ResolvedRow>
    decreases rows.len(),
{
    if rows.len() == 0 {
        seq![]
    } else {
        let r = rows.last();
        let rest = resolve_rows(rows.drop_last());
        match (iso_day_number(r.start@), iso_day_number(r.end@)) {
            (Some(s), Some(e)) => rest.push(
                ResolvedRow {
                    code: r.code,
                    start: r.start,
                    end: r.end,
                    start_day: s,
                    end_day: e,
                    racking_day: resolve_day(r.racking_at),
                    bottling_day: resolve_day(r.bottling_at),
                    failed_day: resolve_day(r.failed_at),
                },
            ),
            _ => rest,
        }
    }
}

/// No batch that has not failed ends before it starts.
pub open spec fn bars_in_order(bars: Seq<ResolvedRow>) -> bool {
    forall|i: int|
        0 <= i < bars.len() ==> (#[trigger] bars[i]).failed_day is Some || bars[i].start_day
            <= bars[i].end_day
}

fn resolve_optional_day(t: &Option<String>) -> (r: Option<i64>)
    ensures
        r == resolve_day(*t),
        is_chrono_day_opt(r),
{
    match t {
        Some(text) => day_offset(text.as_str()),
        None => None,
    }
}

/// A text of the exact shape `YYYY-MM-DD` that names a real date.
pub open spec fn iso_date_ok(t: Seq<char>) -> bool {
    strict_iso_fields(t) is Some && is_valid_date(
        strict_iso_fields(t)->Some_0.0,
        strict_iso_fields(t)->Some_0.1,
        strict_iso_fields(t)->Some_0.2,
    )
}

/// The day number of the date such a text names.
pub open spec fn iso_text_day(t: Seq<char>) -> int {
    day_number(strict_iso_fields(t)->Some_0.0, strict_iso_fields(t)->Some_0.1, strict_iso_fields(t)->Some_0.2)
}

/// `day_offset` reads an ISO date text as the day number of its date.
pub open spec fn iso_read_back(t: Seq<char>) -> bool {
    iso_date_ok(t) ==> iso_day_number(t) == Some(iso_text_day(t) as i64)
}

proof fn lemma_iso_text_day_fits(t: Seq<char>)
    requires
        iso_date_ok(t),
    ensures
        is_chrono_day(iso_text_day(t)),
{
    lemma_four_digits(t, 0);
    let f = strict_iso_fields(t)->Some_0;
    lemma_chrono_date_day(f.0, f.1, f.2);
}

/// Rows whose start and end are ISO dates, with the end not before the
/// start as text, resolve to bars that are all in order.
proof fn lemma_iso_rows_in_order(rows: Seq<BatchTimelineRow>)
    requires
        forall|i: int|
            0 <= i < rows.len() ==> {
                let r = #[trigger] rows[i];
                &&& iso_read_back(r.start@) && iso_read_back(r.end@)
                &&& iso_date_ok(r.start@) && iso_date_ok(r.end@)
                &&& text_le(r.start@, r.end@)
            },
    ensures
        bars_in_order(resolve_rows(rows)),
    decreases rows.len(),
{
    if rows.len() > 0 {
        let init = rows.drop_last();
        assert forall|i: int| 0 <= i < init.len() implies {
            let r = #[trigger] init[i];
            &&& iso_read_back(r.start@) && iso_read_back(r.end@)
            &&& iso_date_ok(r.start@) && iso_date_ok(r.end@)
            &&& text_le(r.start@, r.end@)
        } by {
            assert(init[i] == rows[i]);
        }
        lemma_iso_rows_in_order(init);
        let r = rows.last();
        assert(r == rows[rows.len() - 1]);
        lemma_iso_text_day_fits(r.start@);
        lemma_iso_text_day_fits(r.end@);
        law_iso_text_order_is_date_order(r.start@, r.end@);
        let rest = resolve_rows(init);
        let all = resolve_rows(rows);
        assert forall|i: int| 0 <= i < all.len() implies (#[trigger] all[i]).failed_day is Some
            || all[i].start_day <= all[i].end_day by {
            if i < rest.len() {
                assert(all[i] == rest[i]);
            }
        }
    }
}

fn resolve_timeline_rows(rows: &[BatchTimelineRow]) -> (resolved: Vec<ResolvedRow>)
    ensures
        resolved@ == resolve_rows(rows@),
        resolved@.len() <= rows@.len(),
        forall|i: int|
            0 <= i < rows@.len() ==> iso_read_back((#[trigger] rows@[i]).start@) && iso_read_back(rows@[i].end@),
        forall|i: int|
            0 <= i < resolved@.len() ==> {
                let r = #[trigger] resolved@[i];
                &&& is_chrono_day(r.start_day as int)
                &&& is_chrono_day(r.end_day as int)
                &&& is_chrono_day_opt(r.racking_day)
                &&& is_chrono_day_opt(r.bottling_day)
                &&& is_chrono_day_opt(r.failed_day)
            },
{
    let mut resolved: Vec<ResolvedRow> = Vec::new();
    let mut i: usize = 0;
    while i < rows.len()
        invariant
            0 <= i <= rows@.len(),
            resolved@ == resolve_rows(rows@.take(i as int)),
            resolved@.len() <= i,
            forall|q: int|
                0 <= q < i ==> iso_read_back((#[trigger] rows@[q]).start@) && iso_read_back(rows@[q].end@),
            forall|q: int|
                0 <= q < resolved@.len() ==> {
                    let r = #[trigger] resolved@[q];
                    &&& is_chrono_day(r.start_day as int)
                    &&& is_chrono_day(r.end_day as int)
                    &&& is_chrono_day_opt(r.racking_day)
                    &&& is_chrono_day_opt(r.bottling_day)
                    &&& is_chrono_day_opt(r.failed_day)
                },
        decreases rows@.len() - i,
    {
        let row = &rows[i];
        assert(rows@.take(i + 1).drop_last() =~= rows@.take(i as int));
        assert(rows@.take(i + 1).last() == rows@[i as int]);
        let start_day = day_offset(row.start.as_str());
        let end_day = day_offset(row.end.as_str());
        proof {
            if iso_date_ok(row.start@) {
                lemma_iso_text_day_fits(row.start@);
            }
            if iso_date_ok(row.end@) {
                lemma_iso_text_day_fits(row.end@);
            }
        }
        if let (Some(s), Some(e)) = (start_day, end_day) {
            let racking_day = resolve_optional_day(&row.racking_at);
            let bottling_day = resolve_optional_day(&row.bottling_at);
            let failed_day = resolve_optional_day(&row.failed_at);
            resolved.push(
                ResolvedRow {
                    code: row.code.clone(),
                    start: row.start.clone(),
                    end: row.end.clone(),
                    start_day: s,
                    end_day: e,
                    racking_day,
                    bottling_day,
                    failed_day,
                },
            );
        }
        i = i + 1;
    }
    assert(rows@.take(rows@.len() as int) =~= rows@);
    resolved
}

/// Renders the Season overview: one horizontal row per batch, spanning
/// from its start to its end (failed/bottled/today), with colored segments
/// for each phase it has actually passed through. Every row shares one
/// x-axis. Rows whose start or end does not parse as a date are left out.
pub fn render_season_timeline(rows: &[BatchTimelineRow]) -> (svg: String)
    requires
        bars_in_order(resolve_rows(rows@)),
        rows@.len() <= 0x1_0000_0000,
    ensures
        svg@ == timeline_svg(resolve_rows(rows@)),
{
    let resolved = resolve_timeline_rows(rows);
    assert(drawable(resolved@)) by {
        assert forall|i: int| 0 <= i < resolved@.len() implies drawable_row(#[trigger] resolved@[i]) by {
            assert(bars_in_order(resolved@));
            assert(resolved@[i].failed_day is Some || resolved@[i].start_day <= resolved@[i].end_day);
        }
    }
    render_timeline_bars(resolved.as_slice())
}

/// The Season overview when every bar can be drawn, and `None` when some
/// batch that has not failed would end before it starts (the phase
/// clamping has no valid range for such a bar).
pub fn try_render_season_timeline(rows: &[BatchTimelineRow]) -> (svg: Option<String>)
    requires
        rows@.len() <= 0x1_0000_0000,
    ensures
        bars_in_order(resolve_rows(rows@)) ==> (svg matches Some(t) && t@ == timeline_svg(
            resolve_rows(rows@),
        )),
        !bars_in_order(resolve_rows(rows@)) ==> svg is None,
        (forall|i: int|
            0 <= i < rows@.len() ==> iso_date_ok((#[trigger] rows@[i]).start@) && iso_date_ok(rows@[i].end@)
                && text_le(rows@[i].start@, rows@[i].end@)) ==> svg is Some,
{
    let resolved = resolve_timeline_rows(rows);
    proof {
        if forall|i: int|
            0 <= i < rows@.len() ==> iso_date_ok((#[trigger] rows@[i]).start@) && iso_date_ok(rows@[i].end@)
                && text_le(rows@[i].start@, rows@[i].end@) {
            lemma_iso_rows_in_order(rows@);
        }
    }
    let mut i: usize = 0;
    while i < resolved.len()
        invariant
            0 <= i <= resolved@.len(),
            resolved@ == resolve_rows(rows@),
            (forall|j: int|
                0 <= j < rows@.len() ==> iso_date_ok((#[trigger] rows@[j]).start@) && iso_date_ok(rows@[j].end@)
                    && text_le(rows@[j].start@, rows@[j].end@)) ==> bars_in_order(resolved@),
            forall|q: int|
                0 <= q < i ==> (#[trigger] resolved@[q]).failed_day is Some || resolved@[q].start_day
                    <= resolved@[q].end_day,
        decreases resolved@.len() - i,
    {
        if resolved[i].failed_day.is_none() && resolved[i].start_day > resolved[i].end_day {
            assert(!bars_in_order(resolved@)) by {
                let r = resolved@[i as int];
                assert(!(r.failed_day is Some || r.start_day <= r.end_day));
            }
            return None;
        }
        i = i + 1;
    }
    Some(render_season_timeline(rows))
}

} // verus!
