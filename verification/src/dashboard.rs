//! The dashboard's decisions: which batches and metrics a query selects,
//! the charts and pickers that follow from that, and each batch's phase
//! boundaries for the Season overview.

use vstd::prelude::*;
use crate::batches::{
    event_dates, first_event_date, first_kind_date, joined, lemma_text_le_refl, lemma_text_le_total, opt_text, str_le,
    text_le,
};
use crate::charts::{days_between, days_since, iso_date_ok};
use crate::models::{BatchOption, BatchTimelineRow, MetricOption, SeasonOption};
use crate::numbers::{lemma_parse_i64_int_text, parse_i64, parse_i64_spec, NumberError};
use crate::text::{int_text, lemma_nat_digits, nat_digits, push_int, str_eq};

verus! {

/// `s.split(sep)`: the pieces of `s` between separators, in order; the
/// empty text is one empty piece.
pub open spec fn split_text(s: Seq<char>, sep: char) -> Seq<Seq<char>>
    decreases s.len(),
{
    if s.len() == 0 {
        seq![seq![]]
    } else {
        let t = split_text(s.drop_last(), sep);
        if s.last() == sep {
            t.push(seq![])
        } else {
            t.update(t.len() - 1, t.last().push(s.last()))
        }
    }
}

proof fn lemma_split_nonempty(s: Seq<char>, sep: char)
    ensures
        split_text(s, sep).len() >= 1,
    decreases s.len(),
{
    if s.len() > 0 {
        lemma_split_nonempty(s.drop_last(), sep);
    }
}

/// Index of the first `=` in `p` at or after `i` (its length when none).
pub open spec fn first_eq(p: Seq<char>, i: int) -> int
    decreases p.len() - i,
{
    if i >= p.len() {
        p.len() as int
    } else if p[i] == '=' {
        i
    } else {
        first_eq(p, i + 1)
    }
}

/// The key of a `key=value` pair: everything before the first `=`.
pub open spec fn pair_key(p: Seq<char>) -> Seq<char> {
    p.take(first_eq(p, 0))
}

/// The value of a `key=value` pair: everything after the first `=`, empty
/// when there is none.
pub open spec fn pair_value(p: Seq<char>) -> Seq<char> {
    if first_eq(p, 0) < p.len() { p.skip(first_eq(p, 0) + 1) } else { seq![] }
}

/// The batch ids a query selects: every `batch_id` value that reads as an
/// `i64`, in order.
pub open spec fn selected_batch_ids(pairs: Seq<Seq<char>>) -> Seq<i64>
    decreases pairs.len(),
{
    if pairs.len() == 0 {
        seq![]
    } else {
        let rest = selected_batch_ids(pairs.drop_last());
        let p = pairs.last();
        if pair_key(p) == "batch_id"@ && parse_i64_spec(pair_value(p)) is Ok {
            rest.push(parse_i64_spec(pair_value(p))->Ok_0 as i64)
        } else {
            rest
        }
    }
}

/// The metrics a query selects: every `metric` value, in order.
pub open spec fn selected_metric_slugs(pairs: Seq<Seq<char>>) -> Seq<Seq<char>>
    decreases pairs.len(),
{
    if pairs.len() == 0 {
        seq![]
    } else {
        let rest = selected_metric_slugs(pairs.drop_last());
        let p = pairs.last();
        if pair_key(p) == "metric"@ {
            rest.push(pair_value(p))
        } else {
            rest
        }
    }
}

proof fn lemma_first_eq_bounds(p: Seq<char>, i: int)
    requires
        0 <= i <= p.len(),
    ensures
        i <= first_eq(p, i) <= p.len(),
        forall|q: int| i <= q < first_eq(p, i) ==> p[q] != '=',
        first_eq(p, i) < p.len() ==> p[first_eq(p, i)] == '=',
    decreases p.len() - i,
{
    if i < p.len() && p[i] != '=' {
        lemma_first_eq_bounds(p, i + 1);
    }
}

/// Splits one `key=value` pair at its first `=`.
fn split_pair(pair: &str) -> (r: (&str, &str))
    ensures
        r.0@ == pair_key(pair@),
        r.1@ == pair_value(pair@),
{
    let n = pair.unicode_len();
    let mut e: usize = 0;
    while e < n && pair.get_char(e) != '='
        invariant
            n == pair@.len(),
            0 <= e <= n,
            first_eq(pair@, 0) == first_eq(pair@, e as int),
        decreases n - e,
    {
        e = e + 1;
    }
    proof {
        lemma_first_eq_bounds(pair@, 0);
    }
    let key = pair.substring_char(0, e);
    let value = if e < n { pair.substring_char(e + 1, n) } else { pair.substring_char(n, n) };
    assert(key@ =~= pair_key(pair@));
    assert(value@ =~= pair_value(pair@));
    (key, value)
}

proof fn lemma_split_append_plain(x: Seq<char>, t: Seq<char>, sep: char)
    requires
        !t.contains(sep),
    ensures
        split_text(x + t, sep) == split_text(x, sep).update(
            split_text(x, sep).len() - 1,
            split_text(x, sep).last() + t,
        ),
    decreases t.len(),
{
    lemma_split_nonempty(x, sep);
    let sx = split_text(x, sep);
    if t.len() == 0 {
        assert(x + t =~= x);
        assert(sx.last() + t =~= sx.last());
        assert(sx.update(sx.len() - 1, sx.last()) =~= sx);
    } else {
        let u = t.drop_last();
        assert(!u.contains(sep)) by {
            if u.contains(sep) {
                let k = choose|k: int| 0 <= k < u.len() && u[k] == sep;
                assert(t[k] == sep);
            }
        }
        lemma_split_append_plain(x, u, sep);
        assert((x + t).drop_last() =~= x + u);
        assert((x + t).last() == t.last());
        assert(t.last() != sep) by {
            assert(t[t.len() - 1] == t.last());
        }
        let su = split_text(x + u, sep);
        assert(su.last() + seq![t.last()] =~= (sx.last() + u).push(t.last()));
        assert((sx.last() + u).push(t.last()) =~= sx.last() + t);
        assert(su.update(su.len() - 1, su.last().push(t.last())) =~= sx.update(sx.len() - 1, sx.last() + t));
    }
}

/// Splitting pieces joined by a separator that none of them holds gives
/// the pieces back.
proof fn lemma_split_joined(pieces: Seq<Seq<char>>, sep: char)
    requires
        pieces.len() >= 1,
        forall|k: int| 0 <= k < pieces.len() ==> !(#[trigger] pieces[k]).contains(sep),
    ensures
        split_text(joined(pieces, seq![sep]), sep) == pieces,
    decreases pieces.len(),
{
    if pieces.len() == 1 {
        lemma_split_append_plain(seq![], pieces[0], sep);
        assert(Seq::<char>::empty() + pieces[0] =~= pieces[0]);
        assert(split_text(Seq::<char>::empty(), sep) == seq![Seq::<char>::empty()]);
        assert(seq![Seq::<char>::empty()].update(0, Seq::<char>::empty() + pieces[0]) =~= pieces);
    } else {
        let init = pieces.drop_last();
        lemma_split_joined(init, sep);
        let x = joined(init, seq![sep]).push(sep);
        assert(joined(pieces, seq![sep]) =~= x + pieces.last());
        assert(x.drop_last() =~= joined(init, seq![sep]));
        assert(split_text(x, sep) == init.push(seq![]));
        assert(!pieces.last().contains(sep)) by {
            assert(pieces.last() == pieces[pieces.len() - 1]);
        }
        lemma_split_append_plain(x, pieces.last(), sep);
        assert(Seq::<char>::empty() + pieces.last() =~= pieces.last());
        assert(init.push(seq![]).update(init.len() as int, Seq::<char>::empty() + pieces.last()) =~= pieces);
    }
}

/// The pair the dashboard's form writes for a ticked batch.
pub open spec fn batch_pair(id: i64) -> Seq<char> {
    "batch_id="@ + int_text(id as int)
}

/// The pair the dashboard's form writes for a ticked metric.
pub open spec fn metric_pair(slug: Seq<char>) -> Seq<char> {
    "metric="@ + slug
}

/// The query the dashboard's form submits: a `batch_id` pair for each
/// ticked batch, then a `metric` pair for each ticked metric, joined by `&`.
pub open spec fn selection_query(ids: Seq<i64>, metrics: Seq<Seq<char>>) -> Seq<char> {
    joined(
        ids.map_values(|id: i64| batch_pair(id)) + metrics.map_values(|m: Seq<char>| metric_pair(m)),
        "&"@,
    )
}

proof fn lemma_first_eq_at(p: Seq<char>, k: int)
    requires
        0 <= k < p.len(),
        p[k] == '=',
        forall|q: int| 0 <= q < k ==> p[q] != '=',
    ensures
        first_eq(p, 0) == k,
{
    lemma_first_eq_bounds(p, 0);
    if first_eq(p, 0) > k {
        assert(p[k] != '=');
    }
}

proof fn lemma_batch_pair(id: i64)
    ensures
        pair_key(batch_pair(id)) == "batch_id"@,
        pair_key(batch_pair(id)) != "metric"@,
        parse_i64_spec(pair_value(batch_pair(id))) == Ok::<int, NumberError>(id as int),
{
    reveal_strlit("batch_id=");
    reveal_strlit("batch_id");
    reveal_strlit("metric");
    let p = batch_pair(id);
    lemma_first_eq_at(p, 8);
    assert(p.take(8) =~= "batch_id"@);
    assert(p.skip(9) =~= int_text(id as int));
    lemma_parse_i64_int_text(id);
}

proof fn lemma_metric_pair(slug: Seq<char>)
    ensures
        pair_key(metric_pair(slug)) == "metric"@,
        pair_key(metric_pair(slug)) != "batch_id"@,
        pair_value(metric_pair(slug)) == slug,
{
    reveal_strlit("metric=");
    reveal_strlit("batch_id");
    reveal_strlit("metric");
    let p = metric_pair(slug);
    lemma_first_eq_at(p, 6);
    assert(p.take(6) =~= "metric"@);
    assert(p.skip(7) =~= slug);
}

proof fn lemma_read_batch_pairs(ids: Seq<i64>)
    ensures
        selected_batch_ids(ids.map_values(|id: i64| batch_pair(id))) == ids,
        selected_metric_slugs(ids.map_values(|id: i64| batch_pair(id))) == Seq::<Seq<char>>::empty(),
    decreases ids.len(),
{
    if ids.len() > 0 {
        let ps = ids.map_values(|id: i64| batch_pair(id));
        lemma_read_batch_pairs(ids.drop_last());
        assert(ps.drop_last() =~= ids.drop_last().map_values(|id: i64| batch_pair(id)));
        lemma_batch_pair(ids.last());
        assert(ps.last() == batch_pair(ids.last()));
        assert(ids.drop_last().push(ids.last()) =~= ids);
    } else {
        assert(ids.map_values(|id: i64| batch_pair(id)) =~= Seq::<Seq<char>>::empty());
    }
}

proof fn lemma_read_metric_pairs(prefix: Seq<Seq<char>>, metrics: Seq<Seq<char>>)
    ensures
        selected_batch_ids(prefix + metrics.map_values(|m: Seq<char>| metric_pair(m))) == selected_batch_ids(
            prefix,
        ),
        selected_metric_slugs(prefix + metrics.map_values(|m: Seq<char>| metric_pair(m)))
            == selected_metric_slugs(prefix) + metrics,
    decreases metrics.len(),
{
    let ms = metrics.map_values(|m: Seq<char>| metric_pair(m));
    if metrics.len() > 0 {
        lemma_read_metric_pairs(prefix, metrics.drop_last());
        assert((prefix + ms).drop_last() =~= prefix + metrics.drop_last().map_values(
            |m: Seq<char>| metric_pair(m),
        ));
        assert((prefix + ms).last() == metric_pair(metrics.last()));
        lemma_metric_pair(metrics.last());
        assert((selected_metric_slugs(prefix) + metrics.drop_last()).push(metrics.last()) =~= selected_metric_slugs(
            prefix,
        ) + metrics);
    } else {
        assert(prefix + ms =~= prefix);
        assert(selected_metric_slugs(prefix) + metrics =~= selected_metric_slugs(prefix));
    }
}

/// What the dashboard's form submits reads back as what was ticked: the
/// batch ids and the metric slugs, each in the order given (slugs hold no
/// `&`, the pair separator).
pub proof fn law_selection_reads_back(ids: Seq<i64>, metrics: Seq<Seq<char>>)
    requires
        forall|k: int| 0 <= k < metrics.len() ==> !(#[trigger] metrics[k]).contains('&'),
    ensures
        selected_batch_ids(split_text(selection_query(ids, metrics), '&')) == ids,
        selected_metric_slugs(split_text(selection_query(ids, metrics), '&')) == metrics,
{
    reveal_strlit("&");
    reveal_strlit("batch_id=");
    reveal_strlit("metric=");
    assert("&"@ =~= seq!['&']);
    let bs = ids.map_values(|id: i64| batch_pair(id));
    let ms = metrics.map_values(|m: Seq<char>| metric_pair(m));
    let pieces = bs + ms;
    assert(selection_query(ids, metrics) == joined(pieces, "&"@));
    assert(joined(pieces, "&"@) == joined(pieces, seq!['&']));
    lemma_read_batch_pairs(ids);
    lemma_read_metric_pairs(bs, metrics);
    assert(Seq::<Seq<char>>::empty() + metrics =~= metrics);
    if pieces.len() == 0 {
        assert(ids.len() == 0 && metrics.len() == 0);
        assert(joined(pieces, "&"@) =~= Seq::<char>::empty());
        assert(split_text(Seq::<char>::empty(), '&') == seq![Seq::<char>::empty()]);
        let one = seq![Seq::<char>::empty()];
        assert(one.drop_last() =~= Seq::<Seq<char>>::empty());
        reveal_strlit("batch_id");
        reveal_strlit("metric");
        lemma_first_eq_bounds(Seq::<char>::empty(), 0);
        assert(pair_key(Seq::<char>::empty()) =~= Seq::<char>::empty());
        assert(one.last() == Seq::<char>::empty());
        assert(selected_batch_ids(one.drop_last()) == Seq::<i64>::empty());
        assert(selected_metric_slugs(one.drop_last()) == Seq::<Seq<char>>::empty());
        assert(selected_batch_ids(one) == Seq::<i64>::empty());
        assert(selected_metric_slugs(one) == Seq::<Seq<char>>::empty());
        assert(split_text(selection_query(ids, metrics), '&') == one);
        assert(ids =~= Seq::<i64>::empty());
        assert(metrics =~= Seq::<Seq<char>>::empty());
    } else {
        assert forall|k: int| 0 <= k < pieces.len() implies !(#[trigger] pieces[k]).contains('&') by {
            if k < bs.len() {
                let p = pieces[k];
                assert(p == batch_pair(ids[k]));
                let t = int_text(ids[k] as int);
                if p.contains('&') {
                    let j = choose|j: int| 0 <= j < p.len() && p[j] == '&';
                    if j >= 9 {
                        assert(p[j] == t[j - 9]);
                        if ids[k] < 0 {
                            assert(t == seq!['-'] + nat_digits((-(ids[k] as int)) as nat));
                            lemma_nat_digits((-(ids[k] as int)) as nat);
                            if j > 9 {
                                assert(t[j - 9] == nat_digits((-(ids[k] as int)) as nat)[j - 10]);
                            }
                        } else {
                            lemma_nat_digits(ids[k] as nat);
                        }
                    }
                }
            } else {
                let p = pieces[k];
                let m = metrics[k - bs.len()];
                assert(p == metric_pair(m));
                if p.contains('&') {
                    let j = choose|j: int| 0 <= j < p.len() && p[j] == '&';
                    if j >= 7 {
                        assert(p[j] == m[j - 7]);
                    }
                }
            }
        }
        lemma_split_joined(pieces, '&');
        assert(split_text(selection_query(ids, metrics), '&') == pieces);
        assert(selected_batch_ids(pieces) == ids);
        assert(selected_metric_slugs(pieces) == metrics);
    }
}

/// Records one `key=value` piece of a query: a `batch_id` that reads as
/// an `i64`, or a `metric`.
fn take_pair(piece: &str, batch_ids: &mut Vec<i64>, metrics: &mut Vec<String>)
    ensures
        final(batch_ids)@ == (if pair_key(piece@) == "batch_id"@ && parse_i64_spec(pair_value(piece@)) is Ok {
            old(batch_ids)@.push(parse_i64_spec(pair_value(piece@))->Ok_0 as i64)
        } else {
            old(batch_ids)@
        }),
        final(metrics)@.map_values(|m: String| m@) == (if pair_key(piece@) == "metric"@ {
            old(metrics)@.map_values(|m: String| m@).push(pair_value(piece@))
        } else {
            old(metrics)@.map_values(|m: String| m@)
        }),
{
    let (key, value) = split_pair(piece);
    if str_eq(key, "batch_id") {
        match parse_i64(value) {
            Ok(id) => batch_ids.push(id),
            Err(_) => {},
        }
    }
    proof {
        reveal_strlit("batch_id");
        reveal_strlit("metric");
    }
    if str_eq(key, "metric") {
        metrics.push(String::from_str(value));
        assert(metrics@.map_values(|m: String| m@) =~= old(metrics)@.map_values(|m: String| m@).push(
            pair_value(piece@),
        ));
    }
}

proof fn lemma_split_around(a: Seq<char>, b: Seq<char>, sep: char)
    ensures
        split_text(a + seq![sep] + b, sep) == split_text(a, sep) + split_text(b, sep),
    decreases b.len(),
{
    let x = a + seq![sep] + b;
    if b.len() == 0 {
        assert(x.drop_last() =~= a);
        assert(split_text(b, sep) == seq![Seq::<char>::empty()]);
        assert(split_text(a, sep).push(seq![]) =~= split_text(a, sep) + seq![Seq::<char>::empty()]);
    } else {
        lemma_split_around(a, b.drop_last(), sep);
        assert(x.drop_last() =~= a + seq![sep] + b.drop_last());
        assert(x.last() == b.last());
        let sa = split_text(a, sep);
        let sb = split_text(b.drop_last(), sep);
        lemma_split_nonempty(b.drop_last(), sep);
        let t = sa + sb;
        if b.last() == sep {
            assert(t.push(seq![]) =~= sa + sb.push(seq![]));
        } else {
            assert(t.last() == sb.last());
            assert(t.update(t.len() - 1, t.last().push(b.last())) =~= sa + sb.update(
                sb.len() - 1,
                sb.last().push(b.last()),
            ));
        }
    }
}

proof fn lemma_selected_concat(p: Seq<Seq<char>>, q: Seq<Seq<char>>)
    ensures
        selected_batch_ids(p + q) == selected_batch_ids(p) + selected_batch_ids(q),
        selected_metric_slugs(p + q) == selected_metric_slugs(p) + selected_metric_slugs(q),
    decreases q.len(),
{
    if q.len() == 0 {
        assert(p + q =~= p);
        assert(selected_batch_ids(p) + selected_batch_ids(q) =~= selected_batch_ids(p));
        assert(selected_metric_slugs(p) + selected_metric_slugs(q) =~= selected_metric_slugs(p));
    } else {
        lemma_selected_concat(p, q.drop_last());
        assert((p + q).drop_last() =~= p + q.drop_last());
        assert((p + q).last() == q.last());
        let ib = selected_batch_ids(p);
        let iq = selected_batch_ids(q.drop_last());
        let mb = selected_metric_slugs(p);
        let mq = selected_metric_slugs(q.drop_last());
        let l = q.last();
        if pair_key(l) == "batch_id"@ && parse_i64_spec(pair_value(l)) is Ok {
            assert((ib + iq).push(parse_i64_spec(pair_value(l))->Ok_0 as i64) =~= ib + iq.push(
                parse_i64_spec(pair_value(l))->Ok_0 as i64,
            ));
        }
        if pair_key(l) == "metric"@ {
            assert((mb + mq).push(pair_value(l)) =~= mb + mq.push(pair_value(l)));
        }
    }
}

/// Joining two query strings with `&` selects the batches of the first
/// then those of the second, and likewise the metrics: the selection of
/// `a&b` is the two selections one after the other.
pub proof fn law_joined_queries_select_both(a: Seq<char>, b: Seq<char>)
    ensures
        selected_batch_ids(split_text(a + seq!['&'] + b, '&')) == selected_batch_ids(split_text(a, '&'))
            + selected_batch_ids(split_text(b, '&')),
        selected_metric_slugs(split_text(a + seq!['&'] + b, '&')) == selected_metric_slugs(split_text(a, '&'))
            + selected_metric_slugs(split_text(b, '&')),
{
    lemma_split_around(a, b, '&');
    lemma_selected_concat(split_text(a, '&'), split_text(b, '&'));
}

/// Reads the dashboard's selection from a raw query string of repeated
/// `batch_id=1&batch_id=2&metric=ph` pairs: the batch ids that parse as
/// integers and every metric value, each in the order given. Values are
/// not percent-decoded — every accepted value is numeric or a fixed slug.
pub fn parse_selection(raw: &str) -> (r: (Vec<i64>, Vec<String>))
    ensures
        r.0@ == selected_batch_ids(split_text(raw@, '&')),
        r.1@.map_values(|m: String| m@) == selected_metric_slugs(split_text(raw@, '&')),
{
    let n = raw.unicode_len();
    let mut batch_ids: Vec<i64> = Vec::new();
    let mut metrics: Vec<String> = Vec::new();
    let ghost mut done: Seq<Seq<char>> = seq![];
    let mut start: usize = 0;
    let mut pos: usize = 0;
    assert(raw@.take(0) =~= seq![]);
    assert(raw@.subrange(0, 0) =~= seq![]);
    assert(metrics@.map_values(|m: String| m@) =~= seq![]);
    assert(seq![seq![]] =~= done.push(Seq::<char>::empty()));
    while pos < n
        invariant
            n == raw@.len(),
            start <= pos <= n,
            split_text(raw@.take(pos as int), '&') == done.push(raw@.subrange(start as int, pos as int)),
            batch_ids@ == selected_batch_ids(done),
            metrics@.map_values(|m: String| m@) == selected_metric_slugs(done),
        decreases n - pos,
    {
        assert(raw@.take(pos + 1).drop_last() =~= raw@.take(pos as int));
        assert(raw@.take(pos + 1).last() == raw@[pos as int]);
        if raw.get_char(pos) == '&' {
            let pair = raw.substring_char(start, pos);
            take_pair(pair, &mut batch_ids, &mut metrics);
            proof {
                let nd = done.push(pair@);
                assert(nd.drop_last() =~= done);
                assert(raw@.subrange(pos + 1, pos + 1) =~= seq![]);
                done = nd;
            }
            start = pos + 1;
        } else {
            proof {
                assert(raw@.subrange(start as int, pos + 1) =~= raw@.subrange(start as int, pos as int).push(
                    raw@[pos as int],
                ));
                assert(done.push(raw@.subrange(start as int, pos as int)).update(
                    done.len() as int,
                    raw@.subrange(start as int, pos + 1),
                ) =~= done.push(raw@.subrange(start as int, pos + 1)));
            }
        }
        pos = pos + 1;
    }
    let last = raw.substring_char(start, n);
    take_pair(last, &mut batch_ids, &mut metrics);
    proof {
        assert(raw@.take(n as int) =~= raw@);
        let nd = done.push(last@);
        assert(nd.drop_last() =~= done);
        done = nd;
    }
    (batch_ids, metrics)
}

/// Where a batch's bar ends: the failure date, else the bottling date,
/// else today — but never before the batch's start.
pub open spec fn bar_end(
    start: Seq<char>,
    bottling: Option<Seq<char>>,
    failed: Option<Seq<char>>,
    today: Seq<char>,
) -> Seq<char> {
    let e = match failed {
        Some(f) => f,
        None => match bottling {
            Some(b) => b,
            None => today,
        },
    };
    if text_le(e, start) { start } else { e }
}

/// A timeline row by the views of its fields.
pub open spec fn timeline_row_view(r: BatchTimelineRow) -> (
    Seq<char>,
    Seq<char>,
    Option<Seq<char>>,
    Option<Seq<char>>,
    Option<Seq<char>>,
    Seq<char>,
) {
    (r.code@, r.start@, opt_text(r.racking_at), opt_text(r.bottling_at), opt_text(r.failed_at), r.end@)
}

/// The phase row of batch `b` (id, code), given that it has an event.
pub open spec fn phase_row(b: (i64, String), events: Seq<(i64, String, String)>, today: Seq<char>) -> (
    Seq<char>,
    Seq<char>,
    Option<Seq<char>>,
    Option<Seq<char>>,
    Option<Seq<char>>,
    Seq<char>,
) {
    let start = first_event_date(events, b.0)->Some_0;
    let racking = first_kind_date(events, b.0, "racking"@);
    let bottling = first_kind_date(events, b.0, "bottling"@);
    let failed = first_kind_date(events, b.0, "failed"@);
    (b.1@, start, racking, bottling, failed, bar_end(start, bottling, failed, today))
}

/// Whether the id of `batches[i]` already appears before it.
pub open spec fn listed_before(batches: Seq<(i64, String)>, i: int) -> bool {
    exists|j: int| 0 <= j < i && batches[j].0 == batches[i].0
}

/// The Season overview's rows: one per listed batch, in the order listed,
/// leaving out batches with no event yet (there is nothing to place them
/// at) and any repeat of an id already listed.
pub open spec fn phase_rows(
    batches: Seq<(i64, String)>,
    events: Seq<(i64, String, String)>,
    today: Seq<char>,
) -> Seq<(Seq<char>, Seq<char>, Option<Seq<char>>, Option<Seq<char>>, Option<Seq<char>>, Seq<char>)>
    decreases batches.len(),
{
    if batches.len() == 0 {
        seq![]
    } else {
        let rest = phase_rows(batches.drop_last(), events, today);
        let i = batches.len() - 1;
        if listed_before(batches, i) || first_event_date(events, batches[i].0) is None {
            rest
        } else {
            rest.push(phase_row(batches[i], events, today))
        }
    }
}

/// Every row of the Season overview ends on or after the day it starts:
/// a bar never runs backwards, even when an event is dated in the future.
pub proof fn law_phase_rows_never_end_before_start(
    batches: Seq<(i64, String)>,
    events: Seq<(i64, String, String)>,
    today: Seq<char>,
)
    ensures
        forall|i: int|
            0 <= i < phase_rows(batches, events, today).len() ==> text_le(
                (#[trigger] phase_rows(batches, events, today)[i]).1,
                phase_rows(batches, events, today)[i].5,
            ),
    decreases batches.len(),
{
    if batches.len() > 0 {
        law_phase_rows_never_end_before_start(batches.drop_last(), events, today);
        let i = batches.len() - 1;
        let b = batches[i];
        let start = first_event_date(events, b.0)->Some_0;
        let bottling = first_kind_date(events, b.0, "bottling"@);
        let failed = first_kind_date(events, b.0, "failed"@);
        let e = match failed {
            Some(f) => f,
            None => match bottling {
                Some(x) => x,
                None => today,
            },
        };
        lemma_text_le_refl(start);
        lemma_text_le_total(e, start);
        assert(text_le(start, bar_end(start, bottling, failed, today)));
        let rows = phase_rows(batches, events, today);
        let rest = phase_rows(batches.drop_last(), events, today);
        assert(batches.drop_last().len() == i);
        assert forall|k: int| 0 <= k < rows.len() implies text_le((#[trigger] rows[k]).1, rows[k].5) by {
            if k < rest.len() {
                assert(rows[k] == rest[k]);
            } else {
                assert(rows[k] == phase_row(b, events, today));
            }
        }
    }
}

/// The events come in date order (earliest first).
pub open spec fn events_in_date_order(events: Seq<(i64, String, String)>) -> bool {
    forall|i: int, j: int| 0 <= i <= j < events.len() ==> text_le(#[trigger] events[i].2@, #[trigger] events[j].2@)
}

proof fn lemma_first_event_date(events: Seq<(i64, String, String)>, id: i64)
    ensures
        first_event_date(events, id) matches Some(d) ==> exists|j: int|
            0 <= j < events.len() && events[j].0 == id && (#[trigger] events[j]).2@ == d,
        first_event_date(events, id) is None ==> forall|j: int| 0 <= j < events.len() ==> (#[trigger] events[j]).0 != id,
    decreases events.len(),
{
    if events.len() > 0 {
        let t = events.drop_last();
        lemma_first_event_date(t, id);
        match first_event_date(t, id) {
            Some(d) => {
                let j = choose|j: int| 0 <= j < t.len() && t[j].0 == id && (#[trigger] t[j]).2@ == d;
                assert(events[j] == t[j]);
            },
            None => {
                assert forall|j: int| 0 <= j < events.len() - 1 implies (#[trigger] events[j]).0 != id by {
                    assert(events[j] == t[j]);
                }
            },
        }
    }
}

/// When the events come in date order, a batch's start is the earliest
/// date among its events: no event of the batch is dated before it.
pub proof fn law_phase_start_is_the_earliest_event(events: Seq<(i64, String, String)>, id: i64)
    requires
        events_in_date_order(events),
    ensures
        forall|k: int|
            0 <= k < events.len() && (#[trigger] events[k]).0 == id ==> (first_event_date(events, id) matches Some(
                d,
            ) && text_le(d, events[k].2@)),
    decreases events.len(),
{
    if events.len() > 0 {
        let t = events.drop_last();
        let n = events.len() - 1;
        assert(events_in_date_order(t)) by {
            assert forall|i: int, j: int| 0 <= i <= j < t.len() implies text_le(
                #[trigger] t[i].2@,
                #[trigger] t[j].2@,
            ) by {
                assert(t[i] == events[i] && t[j] == events[j]);
            }
        }
        law_phase_start_is_the_earliest_event(t, id);
        lemma_first_event_date(t, id);
        assert forall|k: int| 0 <= k < events.len() && (#[trigger] events[k]).0 == id implies (first_event_date(
            events,
            id,
        ) matches Some(d) && text_le(d, events[k].2@)) by {
            match first_event_date(t, id) {
                Some(d) => {
                    let j = choose|j: int| 0 <= j < t.len() && t[j].0 == id && (#[trigger] t[j]).2@ == d;
                    assert(events[j] == t[j]);
                    if k < n {
                        assert(events[k] == t[k]);
                    } else {
                        assert(text_le(events[j].2@, events[k].2@));
                    }
                },
                None => {
                    if k < n {
                        assert(events[k] == t[k]);
                        assert(t[k].0 != id);
                    }
                    lemma_text_le_refl(events[k].2@);
                },
            }
        }
    }
}

proof fn lemma_first_kind_date(events: Seq<(i64, String, String)>, id: i64, kind: Seq<char>)
    ensures
        first_kind_date(events, id, kind) matches Some(d) ==> exists|j: int|
            0 <= j < events.len() && events[j].0 == id && (#[trigger] events[j]).2@ == d,
    decreases events.len(),
{
    if events.len() > 0 {
        let t = events.drop_last();
        lemma_first_kind_date(t, id, kind);
        match first_kind_date(t, id, kind) {
            Some(d) => {
                let j = choose|j: int| 0 <= j < t.len() && t[j].0 == id && (#[trigger] t[j]).2@ == d;
                assert(events[j] == t[j]);
            },
            None => {},
        }
    }
}

proof fn lemma_text_le_antisym_any(a: Seq<char>, b: Seq<char>)
    requires
        text_le(a, b),
        text_le(b, a),
    ensures
        a == b,
    decreases a.len(),
{
    if a.len() > 0 {
        lemma_text_le_antisym_any(a.drop_first(), b.drop_first());
        assert(a =~= seq![a[0]] + a.drop_first());
        assert(b =~= seq![b[0]] + b.drop_first());
    } else {
        assert(b.len() == 0);
        assert(a =~= b);
    }
}

/// When the events come in date order, every phase date of a Season
/// overview row (racking, bottling, failure) falls on or after the row's
/// start, and the row ends on the failure date when the batch failed, else
/// on the bottling date when it was bottled.
pub proof fn law_phase_dates_follow_the_start(
    batches: Seq<(i64, String)>,
    events: Seq<(i64, String, String)>,
    today: Seq<char>,
)
    requires
        events_in_date_order(events),
    ensures
        forall|i: int|
            0 <= i < phase_rows(batches, events, today).len() ==> {
                let r = #[trigger] phase_rows(batches, events, today)[i];
                &&& (r.2 matches Some(x) ==> text_le(r.1, x))
                &&& (r.3 matches Some(x) ==> text_le(r.1, x))
                &&& (r.4 matches Some(x) ==> text_le(r.1, x))
                &&& (r.4 matches Some(f) ==> r.5 == f)
                &&& (r.4 is None ==> (r.3 matches Some(x) ==> r.5 == x))
            },
    decreases batches.len(),
{
    if batches.len() > 0 {
        law_phase_dates_follow_the_start(batches.drop_last(), events, today);
        let i = batches.len() - 1;
        let b = batches[i];
        let rows = phase_rows(batches, events, today);
        let rest = phase_rows(batches.drop_last(), events, today);
        assert(batches.drop_last().len() == i);
        if !(listed_before(batches, i) || first_event_date(events, b.0) is None) {
            let start = first_event_date(events, b.0)->Some_0;
            law_phase_start_is_the_earliest_event(events, b.0);
            lemma_first_kind_date(events, b.0, "racking"@);
            lemma_first_kind_date(events, b.0, "bottling"@);
            lemma_first_kind_date(events, b.0, "failed"@);
            let racking = first_kind_date(events, b.0, "racking"@);
            let bottling = first_kind_date(events, b.0, "bottling"@);
            let failed = first_kind_date(events, b.0, "failed"@);
            if racking is Some {
                let j = choose|j: int|
                    0 <= j < events.len() && events[j].0 == b.0 && (#[trigger] events[j]).2@ == racking->Some_0;
                assert(text_le(start, events[j].2@));
            }
            if bottling is Some {
                let j = choose|j: int|
                    0 <= j < events.len() && events[j].0 == b.0 && (#[trigger] events[j]).2@ == bottling->Some_0;
                assert(text_le(start, events[j].2@));
            }
            if failed is Some {
                let j = choose|j: int|
                    0 <= j < events.len() && events[j].0 == b.0 && (#[trigger] events[j]).2@ == failed->Some_0;
                assert(text_le(start, events[j].2@));
            }
            let e = match failed {
                Some(f) => f,
                None => match bottling {
                    Some(x) => x,
                    None => today,
                },
            };
            if failed is Some || bottling is Some {
                if text_le(e, start) {
                    lemma_text_le_antisym_any(e, start);
                }
                assert(bar_end(start, bottling, failed, today) == e);
            }
            assert(rows[rest.len() as int] == phase_row(b, events, today));
        }
        assert forall|k: int| 0 <= k < rows.len() implies {
            let r = #[trigger] rows[k];
            &&& (r.2 matches Some(x) ==> text_le(r.1, x))
            &&& (r.3 matches Some(x) ==> text_le(r.1, x))
            &&& (r.4 matches Some(x) ==> text_le(r.1, x))
            &&& (r.4 matches Some(f) ==> r.5 == f)
            &&& (r.4 is None ==> (r.3 matches Some(x) ==> r.5 == x))
        } by {
            if k < rest.len() {
                assert(rows[k] == rest[k]);
            }
        }
    }
}

/// When every event and today are dated with ISO dates, every row of the
/// Season overview starts and ends on an ISO date and does not end before
/// it starts — so the timeline of those rows can always be drawn.
pub proof fn law_phase_rows_are_drawable(
    batches: Seq<(i64, String)>,
    events: Seq<(i64, String, String)>,
    today: Seq<char>,
)
    requires
        forall|k: int| 0 <= k < events.len() ==> iso_date_ok((#[trigger] events[k]).2@),
        iso_date_ok(today),
    ensures
        forall|i: int|
            0 <= i < phase_rows(batches, events, today).len() ==> {
                let r = #[trigger] phase_rows(batches, events, today)[i];
                &&& iso_date_ok(r.1)
                &&& iso_date_ok(r.5)
                &&& text_le(r.1, r.5)
            },
    decreases batches.len(),
{
    law_phase_rows_never_end_before_start(batches, events, today);
    if batches.len() > 0 {
        law_phase_rows_are_drawable(batches.drop_last(), events, today);
        let i = batches.len() - 1;
        let b = batches[i];
        let rows = phase_rows(batches, events, today);
        let rest = phase_rows(batches.drop_last(), events, today);
        assert(batches.drop_last().len() == i);
        if !(listed_before(batches, i) || first_event_date(events, b.0) is None) {
            let start = first_event_date(events, b.0)->Some_0;
            let bottling = first_kind_date(events, b.0, "bottling"@);
            let failed = first_kind_date(events, b.0, "failed"@);
            lemma_first_event_date(events, b.0);
            lemma_first_kind_date(events, b.0, "bottling"@);
            lemma_first_kind_date(events, b.0, "failed"@);
            assert(iso_date_ok(start)) by {
                let j = choose|j: int| 0 <= j < events.len() && events[j].0 == b.0 && (#[trigger] events[j]).2@ == start;
                assert(iso_date_ok(events[j].2@));
            }
            if failed is Some {
                let j = choose|j: int| 0 <= j < events.len() && (#[trigger] events[j]).2@ == failed->Some_0;
                assert(iso_date_ok(events[j].2@));
            }
            if bottling is Some {
                let j = choose|j: int| 0 <= j < events.len() && (#[trigger] events[j]).2@ == bottling->Some_0;
                assert(iso_date_ok(events[j].2@));
            }
            assert(iso_date_ok(bar_end(start, bottling, failed, today)));
            assert(rows[rest.len() as int] == phase_row(b, events, today));
        }
        assert forall|k: int| 0 <= k < rows.len() implies {
            let r = #[trigger] rows[k];
            &&& iso_date_ok(r.1)
            &&& iso_date_ok(r.5)
            &&& text_le(r.1, r.5)
        } by {
            if k < rest.len() {
                assert(rows[k] == rest[k]);
            }
        }
    }
}

fn is_listed_before(batches: &[(i64, String)], i: usize) -> (r: bool)
    requires
        i < batches@.len(),
    ensures
        r == listed_before(batches@, i as int),
{
    let mut j: usize = 0;
    while j < i
        invariant
            i < batches@.len(),
            0 <= j <= i,
            forall|q: int| 0 <= q < j ==> batches@[q].0 != batches@[i as int].0,
        decreases i - j,
    {
        if batches[j].0 == batches[i].0 {
            return true;
        }
        j = j + 1;
    }
    false
}

/// Each batch's phase boundaries, from its events: the start (first event
/// of any kind), the first racking, bottling and failure dates if there
/// are any, and the end of its bar (failed, else bottled, else `today`,
/// and never before the start). `batches` are (id, code) in display order,
/// `events` (batch id, event type, date) in date order.
pub fn batch_phases(
    batches: &[(i64, String)],
    events: &[(i64, String, String)],
    today: &str,
) -> (rows: Vec<BatchTimelineRow>)
    ensures
        rows@.map_values(|r: BatchTimelineRow| timeline_row_view(r)) == phase_rows(
            batches@,
            events@,
            today@,
        ),
{
    let mut rows: Vec<BatchTimelineRow> = Vec::new();
    let mut i: usize = 0;
    assert(rows@.map_values(|r: BatchTimelineRow| timeline_row_view(r)) =~= seq![]);
    assert(batches@.take(0) =~= seq![]);
    while i < batches.len()
        invariant
            0 <= i <= batches@.len(),
            rows@.map_values(|r: BatchTimelineRow| timeline_row_view(r)) == phase_rows(
                batches@.take(i as int),
                events@,
                today@,
            ),
        decreases batches@.len() - i,
    {
        let id = batches[i].0;
        let dates = event_dates(events, id);
        let start = dates.first;
        let racking = dates.racking;
        let bottling = dates.bottling;
        let failed = dates.failed;
        assert(batches@.take(i + 1).drop_last() =~= batches@.take(i as int));
        let dup = is_listed_before(batches, i);
        proof {
            let t = batches@.take(i + 1);
            assert(t[i as int] == batches@[i as int]);
            assert(listed_before(t, i as int) == listed_before(batches@, i as int)) by {
                if listed_before(batches@, i as int) {
                    let j = choose|j: int| 0 <= j < i && batches@[j].0 == batches@[i as int].0;
                    assert(t[j] == batches@[j]);
                }
            }
        }
        if !dup {
            match start {
                Some(s) => {
                    let e: String = match &failed {
                        Some(f) => f.clone(),
                        None => match &bottling {
                            Some(b) => b.clone(),
                            None => String::from_str(today),
                        },
                    };
                    let end = if str_le(e.as_str(), s.as_str()) { s.clone() } else { e };
                    let row = BatchTimelineRow {
                        code: batches[i].1.clone(),
                        start: s,
                        racking_at: racking,
                        bottling_at: bottling,
                        failed_at: failed,
                        end,
                    };
                    let ghost before = rows@;
                    rows.push(row);
                    proof {
                        assert(rows@.map_values(|r: BatchTimelineRow| timeline_row_view(r)) =~= before.map_values(
                            |r: BatchTimelineRow| timeline_row_view(r),
                        ).push(timeline_row_view(row)));
                    }
                },
                None => {},
            }
        }
        i = i + 1;
    }
    assert(batches@.take(batches@.len() as int) =~= batches@);
    rows
}

/// The Season overview's query: which season to show, if one is asked for.
pub struct SeasonOverviewQuery {
    pub season_id: Option<i64>,
}

/// The season that the overview shows: the one asked for, else the first
/// listed (seasons come newest first), else none.
pub open spec fn selected_season(seasons: Seq<(i64, i64)>, season_id: Option<i64>) -> Option<i64> {
    match season_id {
        Some(id) => Some(id),
        None => if seasons.len() > 0 {
            Some(seasons[0].0)
        } else {
            None
        },
    }
}

/// The season picker for `seasons` (id, year), newest first, and the
/// season it selects: the one asked for, else the most recent one.
pub fn season_options(seasons: &[(i64, i64)], season_id: Option<i64>) -> (r: (Vec<SeasonOption>, Option<i64>))
    ensures
        r.1 == selected_season(seasons@, season_id),
        r.0@.len() == seasons@.len(),
        forall|i: int|
            0 <= i < seasons@.len() ==> #[trigger] r.0@[i] == (SeasonOption {
                id: seasons@[i].0,
                year: seasons@[i].1,
                selected: r.1 == Some(seasons@[i].0),
            }),
{
    let selected: Option<i64> = match season_id {
        Some(id) => Some(id),
        None => if seasons.len() > 0 {
            Some(seasons[0].0)
        } else {
            None
        },
    };
    let mut options: Vec<SeasonOption> = Vec::new();
    let mut i: usize = 0;
    while i < seasons.len()
        invariant
            0 <= i <= seasons@.len(),
            selected == selected_season(seasons@, season_id),
            options@.len() == i,
            forall|q: int|
                0 <= q < i ==> #[trigger] options@[q] == (SeasonOption {
                    id: seasons@[q].0,
                    year: seasons@[q].1,
                    selected: selected == Some(seasons@[q].0),
                }),
        decreases seasons@.len() - i,
    {
        let (id, year) = seasons[i];
        let is_selected = match selected {
            Some(s) => s == id,
            None => false,
        };
        options.push(SeasonOption { id, year, selected: is_selected });
        i = i + 1;
    }
    (options, selected)
}

/// The metrics the dashboard can chart, by slug and label, in the order
/// their charts appear.
pub open spec fn metric_table() -> Seq<(Seq<char>, Seq<char>)> {
    seq![
        ("specific_gravity"@, "Specific Gravity"@),
        ("ph"@, "pH"@),
        ("temperature_c"@, "Temperature (°C)"@),
        ("volume_l"@, "Volume (L)"@),
        ("score"@, "Taste Score"@),
    ]
}

pub open spec fn metric_view(m: (&'static str, &'static str)) -> (Seq<char>, Seq<char>) {
    (m.0@, m.1@)
}

/// The chartable metrics as (slug, label).
pub fn metrics() -> (table: Vec<(&'static str, &'static str)>)
    ensures
        table@.map_values(|m: (&'static str, &'static str)| metric_view(m)) == metric_table(),
{
    let table = vec![
        ("specific_gravity", "Specific Gravity"),
        ("ph", "pH"),
        ("temperature_c", "Temperature (°C)"),
        ("volume_l", "Volume (L)"),
        ("score", "Taste Score"),
    ];
    assert(table@.map_values(|m: (&'static str, &'static str)| metric_view(m)) =~= metric_table());
    table
}

/// Whether `slug` is among the selected metrics.
pub open spec fn has_text(list: Seq<String>, slug: Seq<char>) -> bool {
    exists|k: int| 0 <= k < list.len() && list[k]@ == slug
}

fn contains_text(list: &[String], slug: &str) -> (r: bool)
    ensures
        r == has_text(list@, slug@),
{
    let mut k: usize = 0;
    while k < list.len()
        invariant
            0 <= k <= list@.len(),
            forall|q: int| 0 <= q < k ==> list@[q]@ != slug@,
        decreases list@.len() - k,
    {
        if str_eq(list[k].as_str(), slug) {
            return true;
        }
        k = k + 1;
    }
    false
}

/// The metrics that get a chart: those of the table that are selected,
/// in the table's order, each once however often it was selected.
pub open spec fn charted_metrics(table: Seq<(Seq<char>, Seq<char>)>, selected: Seq<String>) -> Seq<
    (Seq<char>, Seq<char>),
>
    decreases table.len(),
{
    if table.len() == 0 {
        seq![]
    } else {
        let rest = charted_metrics(table.drop_last(), selected);
        if has_text(selected, table.last().0) {
            rest.push(table.last())
        } else {
            rest
        }
    }
}

/// The (slug, label) of each metric to chart for a selection.
pub fn chart_metrics(selected: &[String]) -> (charted: Vec<(&'static str, &'static str)>)
    ensures
        charted@.map_values(|m: (&'static str, &'static str)| metric_view(m)) == charted_metrics(
            metric_table(),
            selected@,
        ),
{
    let table = metrics();
    let ghost tv = table@.map_values(|m: (&'static str, &'static str)| metric_view(m));
    let mut charted: Vec<(&'static str, &'static str)> = Vec::new();
    let mut i: usize = 0;
    assert(tv.take(0) =~= seq![]);
    assert(charted@.map_values(|m: (&'static str, &'static str)| metric_view(m)) =~= seq![]);
    while i < table.len()
        invariant
            0 <= i <= table@.len(),
            tv == table@.map_values(|m: (&'static str, &'static str)| metric_view(m)),
            charted@.map_values(|m: (&'static str, &'static str)| metric_view(m)) == charted_metrics(
                tv.take(i as int),
                selected@,
            ),
        decreases table@.len() - i,
    {
        assert(tv.take(i + 1).drop_last() =~= tv.take(i as int));
        assert(tv.take(i + 1).last() == metric_view(table@[i as int]));
        let m = table[i];
        if contains_text(selected, m.0) {
            let ghost before = charted@;
            charted.push(m);
            assert(charted@.map_values(|m: (&'static str, &'static str)| metric_view(m)) =~= before.map_values(
                |m: (&'static str, &'static str)| metric_view(m),
            ).push(metric_view(m)));
        }
        i = i + 1;
    }
    assert(tv.take(tv.len() as int) =~= tv);
    charted
}

/// The metric picker: every chartable metric, ticked when selected.
pub fn metric_options(selected: &[String]) -> (options: Vec<MetricOption>)
    ensures
        options@.len() == metric_table().len(),
        forall|i: int|
            0 <= i < metric_table().len() ==> {
                let o = #[trigger] options@[i];
                &&& o.slug@ == metric_table()[i].0
                &&& o.label@ == metric_table()[i].1
                &&& o.checked == has_text(selected@, metric_table()[i].0)
            },
{
    let table = metrics();
    let ghost tv = table@.map_values(|m: (&'static str, &'static str)| metric_view(m));
    let mut options: Vec<MetricOption> = Vec::new();
    let mut i: usize = 0;
    while i < table.len()
        invariant
            0 <= i <= table@.len(),
            tv == metric_table(),
            tv == table@.map_values(|m: (&'static str, &'static str)| metric_view(m)),
            options@.len() == i,
            forall|q: int|
                0 <= q < i ==> {
                    let o = #[trigger] options@[q];
                    &&& o.slug@ == tv[q].0
                    &&& o.label@ == tv[q].1
                    &&& o.checked == has_text(selected@, tv[q].0)
                },
        decreases table@.len() - i,
    {
        let (slug, label) = table[i];
        assert(tv[i as int] == metric_view(table@[i as int]));
        let checked = contains_text(selected, slug);
        options.push(MetricOption { slug, label, checked });
        i = i + 1;
    }
    options
}

/// Whether `id` is among the selected batches.
pub open spec fn has_id(list: Seq<i64>, id: i64) -> bool {
    exists|k: int| 0 <= k < list.len() && list[k] == id
}

fn contains_id(list: &[i64], id: i64) -> (r: bool)
    ensures
        r == has_id(list@, id),
{
    let mut k: usize = 0;
    while k < list.len()
        invariant
            0 <= k <= list@.len(),
            forall|q: int| 0 <= q < k ==> list@[q] != id,
        decreases list@.len() - k,
    {
        if list[k] == id {
            return true;
        }
        k = k + 1;
    }
    false
}

/// The batch picker: every batch (id, code) in the order given, ticked
/// when selected.
pub fn batch_options(batches: &[(i64, String)], selected: &[i64]) -> (options: Vec<BatchOption>)
    ensures
        options@.len() == batches@.len(),
        forall|i: int|
            0 <= i < batches@.len() ==> {
                let o = #[trigger] options@[i];
                &&& o.id == batches@[i].0
                &&& o.code@ == batches@[i].1@
                &&& o.checked == has_id(selected@, batches@[i].0)
            },
{
    let mut options: Vec<BatchOption> = Vec::new();
    let mut i: usize = 0;
    while i < batches.len()
        invariant
            0 <= i <= batches@.len(),
            options@.len() == i,
            forall|q: int|
                0 <= q < i ==> {
                    let o = #[trigger] options@[q];
                    &&& o.id == batches@[q].0
                    &&& o.code@ == batches@[q].1@
                    &&& o.checked == has_id(selected@, batches@[q].0)
                },
        decreases batches@.len() - i,
    {
        let id = batches[i].0;
        let checked = contains_id(selected, id);
        options.push(BatchOption { id, code: batches[i].1.clone(), checked });
        i = i + 1;
    }
    options
}

/// The code shown for a batch in a chart legend: its code when it is
/// known, else `#` and its id.
pub open spec fn batch_label(codes: Seq<(i64, String)>, id: i64) -> Seq<char> {
    if exists|k: int| 0 <= k < codes.len() && codes[k].0 == id {
        codes[choose|k: int| 0 <= k < codes.len() && codes[k].0 == id && forall|q: int| 0 <= q < k ==> codes[q].0 != id].1@
    } else {
        seq!['#'] + int_text(id as int)
    }
}

/// The code of batch `id` among `codes` (id, code), the first that
/// matches, else `#` and the id.
pub fn batch_code_for(codes: &[(i64, String)], id: i64) -> (code: String)
    ensures
        code@ == batch_label(codes@, id),
{
    let mut k: usize = 0;
    while k < codes.len()
        invariant
            0 <= k <= codes@.len(),
            forall|q: int| 0 <= q < k ==> codes@[q].0 != id,
        decreases codes@.len() - k,
    {
        if codes[k].0 == id {
            proof {
                let w = choose|w: int| 0 <= w < codes@.len() && codes@[w].0 == id && forall|q: int| 0 <= q < w ==> codes@[q].0 != id;
                assert(0 <= k < codes@.len() && codes@[k as int].0 == id && forall|q: int| 0 <= q < k ==> codes@[q].0 != id);
                assert(w == k as int) by {
                    if w < k {
                    } else if w > k {
                        assert(codes@[k as int].0 != id);
                    }
                }
            }
            return codes[k].1.clone();
        }
        k = k + 1;
    }
    let mut out = String::from_str("#");
    push_int(&mut out, id as i128);
    proof {
        reveal_strlit("#");
    }
    out
}

/// Where a metric's readings are stored.
#[derive(PartialEq, Eq, Structural, Clone, Copy, Debug)]
pub enum MetricSource {
    /// A column of the measurement events, named like the metric; only
    /// the events that recorded it count.
    Measurement,
    /// The score of the tasting events.
    Tasting,
}

/// The store of each chartable metric: gravity, pH, temperature and volume
/// are measurement columns, the taste score comes from tastings, and any
/// other slug has no data.
pub open spec fn metric_source_spec(slug: Seq<char>) -> Option<MetricSource> {
    if slug == "specific_gravity"@ || slug == "ph"@ || slug == "temperature_c"@ || slug == "volume_l"@ {
        Some(MetricSource::Measurement)
    } else if slug == "score"@ {
        Some(MetricSource::Tasting)
    } else {
        None
    }
}

/// Where the readings of metric `slug` are stored, if it is chartable.
pub fn metric_source(slug: &str) -> (r: Option<MetricSource>)
    ensures
        r == metric_source_spec(slug@),
{
    if str_eq(slug, "specific_gravity") || str_eq(slug, "ph") || str_eq(slug, "temperature_c") || str_eq(
        slug,
        "volume_l",
    ) {
        Some(MetricSource::Measurement)
    } else if str_eq(slug, "score") {
        Some(MetricSource::Tasting)
    } else {
        None
    }
}

/// The first juicing date listed for batch `id` among (batch id, date)
/// pairs: the day its chart series counts from.
pub open spec fn juicing_anchor(juicing_dates: Seq<(i64, String)>, id: i64) -> Option<Seq<char>>
    decreases juicing_dates.len(),
{
    if juicing_dates.len() == 0 {
        None
    } else {
        match juicing_anchor(juicing_dates.drop_last(), id) {
            Some(d) => Some(d),
            None => if juicing_dates.last().0 == id {
                Some(juicing_dates.last().1@)
            } else {
                None
            },
        }
    }
}

proof fn lemma_anchor_prefix(juicing_dates: Seq<(i64, String)>, id: i64, k: int)
    requires
        0 <= k <= juicing_dates.len(),
        juicing_anchor(juicing_dates.take(k), id) is Some,
    ensures
        juicing_anchor(juicing_dates, id) == juicing_anchor(juicing_dates.take(k), id),
    decreases juicing_dates.len() - k,
{
    if k < juicing_dates.len() {
        assert(juicing_dates.take(k + 1).drop_last() =~= juicing_dates.take(k));
        lemma_anchor_prefix(juicing_dates, id, k + 1);
    } else {
        assert(juicing_dates.take(k) =~= juicing_dates);
    }
}

/// The points of a series counted from `anchor`: for each reading, in
/// order, its index among the readings and its day since the anchor,
/// leaving out readings whose date does not read as a date.
pub open spec fn series_points(anchor: Seq<char>, dates: Seq<String>) -> Seq<(usize, i64)>
    decreases dates.len(),
{
    if dates.len() == 0 {
        seq![]
    } else {
        let rest = series_points(anchor, dates.drop_last());
        match days_between(anchor, dates.last()@) {
            Some(day) => rest.push(((dates.len() - 1) as usize, day)),
            None => rest,
        }
    }
}

/// The series of one metric chart: for each selected batch, in order, its
/// points counted from its first juicing (`reading_dates[i]` are the dates
/// of batch `batch_ids[i]`'s readings). A batch with no juicing has no day
/// 0 to count from and gets no series; nor does one with no point left.
pub open spec fn chart_series_spec(
    batch_ids: Seq<i64>,
    juicing_dates: Seq<(i64, String)>,
    reading_dates: Seq<Vec<String>>,
) -> Seq<(i64, Seq<(usize, i64)>)>
    decreases batch_ids.len(),
{
    if batch_ids.len() == 0 {
        seq![]
    } else {
        let rest = chart_series_spec(batch_ids.drop_last(), juicing_dates, reading_dates.drop_last());
        let id = batch_ids.last();
        match juicing_anchor(juicing_dates, id) {
            None => rest,
            Some(anchor) => {
                let points = series_points(anchor, reading_dates.last()@);
                if points.len() == 0 {
                    rest
                } else {
                    rest.push((id, points))
                }
            },
        }
    }
}

pub open spec fn series_view(s: (i64, Vec<(usize, i64)>)) -> (i64, Seq<(usize, i64)>) {
    (s.0, s.1@)
}

fn find_juicing_anchor(juicing_dates: &[(i64, String)], id: i64) -> (r: Option<usize>)
    ensures
        match r {
            Some(k) => k < juicing_dates@.len() && juicing_anchor(juicing_dates@, id) == Some(
                juicing_dates@[k as int].1@,
            ),
            None => juicing_anchor(juicing_dates@, id) is None,
        },
{
    let mut k: usize = 0;
    assert(juicing_dates@.take(0) =~= seq![]);
    while k < juicing_dates.len()
        invariant
            0 <= k <= juicing_dates@.len(),
            juicing_anchor(juicing_dates@.take(k as int), id) is None,
        decreases juicing_dates@.len() - k,
    {
        assert(juicing_dates@.take(k + 1).drop_last() =~= juicing_dates@.take(k as int));
        assert(juicing_dates@.take(k + 1).last() == juicing_dates@[k as int]);
        if juicing_dates[k].0 == id {
            proof {
                lemma_anchor_prefix(juicing_dates@, id, k + 1);
            }
            return Some(k);
        }
        k = k + 1;
    }
    assert(juicing_dates@.take(k as int) =~= juicing_dates@);
    None
}

fn points_from(anchor: &str, dates: &Vec<String>) -> (r: Vec<(usize, i64)>)
    ensures
        r@ == series_points(anchor@, dates@),
{
    let mut points: Vec<(usize, i64)> = Vec::new();
    let mut j: usize = 0;
    assert(dates@.take(0) =~= seq![]);
    while j < dates.len()
        invariant
            0 <= j <= dates@.len(),
            points@ == series_points(anchor@, dates@.take(j as int)),
        decreases dates@.len() - j,
    {
        assert(dates@.take(j + 1).drop_last() =~= dates@.take(j as int));
        assert(dates@.take(j + 1).last() == dates@[j as int]);
        match days_since(anchor, dates[j].as_str()) {
            Some(day) => points.push((j, day)),
            None => {},
        }
        j = j + 1;
    }
    assert(dates@.take(j as int) =~= dates@);
    points
}

/// Decides the series of one metric chart from the batches' first juicing
/// dates and their readings' dates: which batches get a series, and which
/// readings become points at which day since juicing. Each point names
/// its reading by index, so the caller attaches the reading's value.
pub fn chart_series(batch_ids: &[i64], juicing_dates: &[(i64, String)], reading_dates: &[Vec<String>]) -> (r: Vec<
    (i64, Vec<(usize, i64)>),
>)
    requires
        reading_dates@.len() == batch_ids@.len(),
    ensures
        r@.map_values(|s: (i64, Vec<(usize, i64)>)| series_view(s)) == chart_series_spec(
            batch_ids@,
            juicing_dates@,
            reading_dates@,
        ),
{
    let mut out: Vec<(i64, Vec<(usize, i64)>)> = Vec::new();
    let mut i: usize = 0;
    assert(batch_ids@.take(0) =~= seq![]);
    assert(out@.map_values(|s: (i64, Vec<(usize, i64)>)| series_view(s)) =~= seq![]);
    while i < batch_ids.len()
        invariant
            0 <= i <= batch_ids@.len(),
            reading_dates@.len() == batch_ids@.len(),
            out@.map_values(|s: (i64, Vec<(usize, i64)>)| series_view(s)) == chart_series_spec(
                batch_ids@.take(i as int),
                juicing_dates@,
                reading_dates@.take(i as int),
            ),
        decreases batch_ids@.len() - i,
    {
        let ghost before = out@.map_values(|s: (i64, Vec<(usize, i64)>)| series_view(s));
        assert(batch_ids@.take(i + 1).drop_last() =~= batch_ids@.take(i as int));
        assert(reading_dates@.take(i + 1).drop_last() =~= reading_dates@.take(i as int));
        assert(batch_ids@.take(i + 1).last() == batch_ids@[i as int]);
        assert(reading_dates@.take(i + 1).last() == reading_dates@[i as int]);
        let id = batch_ids[i];
        match find_juicing_anchor(juicing_dates, id) {
            None => {},
            Some(k) => {
                let points = points_from(juicing_dates[k].1.as_str(), &reading_dates[i]);
                if points.len() > 0 {
                    out.push((id, points));
                    assert(out@.map_values(|s: (i64, Vec<(usize, i64)>)| series_view(s)) =~= before.push(
                        (id, points@),
                    ));
                }
            },
        }
        i = i + 1;
    }
    assert(batch_ids@.take(i as int) =~= batch_ids@);
    assert(reading_dates@.take(i as int) =~= reading_dates@);
    out
}

} // verus!
