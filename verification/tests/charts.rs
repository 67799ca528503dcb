use ciderhub::binary64::{binary_sub_exec, push_binary, timeline_x_exec};
use ciderhub::charts::{
    chart_day_range, day_offset, day_tick_interval, day_tick_label, day_ticks, escape_xml_text,
    line_chart_legend, month_abbrev, render_season_timeline, week_gridlines, series_color,
    try_render_season_timeline,
};
use ciderhub::models::BatchTimelineRow;

const PHASE_LEGEND: &str = r##"<div class="chart-legend">
            <span class="chart-legend__item"><span class="chart-legend__swatch" style="background:#5b7a4f"></span>Fermenting</span>
            <span class="chart-legend__item"><span class="chart-legend__swatch" style="background:#a3623e"></span>Conditioning</span>
            <span class="chart-legend__item"><span class="chart-legend__swatch" style="background:#2c3e50"></span>Bottled</span>
            <span class="chart-legend__item"><span class="chart-legend__swatch" style="background:#a33333"></span>Failed</span>
        </div>"##;

fn row(code: &str, start: &str, racking: Option<&str>, bottling: Option<&str>, failed: Option<&str>, end: &str) -> BatchTimelineRow {
    BatchTimelineRow {
        code: code.to_string(),
        start: start.to_string(),
        racking_at: racking.map(|s| s.to_string()),
        bottling_at: bottling.map(|s| s.to_string()),
        failed_at: failed.map(|s| s.to_string()),
        end: end.to_string(),
    }
}

#[test]
fn tick_interval_follows_the_span_thresholds() {
    assert_eq!(day_tick_interval(0), 2);
    assert_eq!(day_tick_interval(14), 2);
    assert_eq!(day_tick_interval(15), 5);
    assert_eq!(day_tick_interval(30), 5);
    assert_eq!(day_tick_interval(31), 10);
    assert_eq!(day_tick_interval(90), 10);
    assert_eq!(day_tick_interval(91), 30);
    assert_eq!(day_tick_interval(180), 30);
    assert_eq!(day_tick_interval(181), 60);
}

#[test]
fn day_ticks_count_outward_from_fermentation_start() {
    assert_eq!(day_ticks(-3, 10), vec![-2, 0, 2, 4, 6, 8, 10]);
    assert_eq!(day_ticks(0, 0), vec![0]);
    assert_eq!(day_ticks(0, 20), vec![0, 5, 10, 15, 20]);
    assert_eq!(day_ticks(-30, 40), vec![-30, -20, -10, 0, 10, 20, 30, 40]);
}

#[test]
fn day_ticks_are_the_multiples_of_the_interval_in_range() {
    // the law on concrete values: every multiple of the interval inside
    // the axis, nothing else, ascending
    let ticks = day_ticks(-7, 100);
    let interval = day_tick_interval(107);
    assert_eq!(interval, 30);
    let expected: Vec<i64> = (-7..=100).filter(|d: &i64| d % interval == 0).collect();
    assert_eq!(ticks, expected);
}

#[test]
fn tick_labels_name_day_zero() {
    assert_eq!(day_tick_label(0), "Fermentation Start");
    assert_eq!(day_tick_label(10), "10");
    assert_eq!(day_tick_label(-4), "-4");
}

#[test]
fn chart_range_always_includes_day_zero() {
    assert_eq!(chart_day_range(&[5, 12]), (0, 12));
    assert_eq!(chart_day_range(&[-2, 3]), (-2, 3));
    assert_eq!(chart_day_range(&[-9, -4]), (-9, 0));
    assert_eq!(chart_day_range(&[]), (0, 0));
}

#[test]
fn escaping_replaces_the_three_markup_characters() {
    assert_eq!(escape_xml_text("a<b & c>"), "a&lt;b &amp; c&gt;");
    assert_eq!(escape_xml_text("plain"), "plain");
    assert_eq!(escape_xml_text("&amp;"), "&amp;amp;");
}

#[test]
fn escaped_text_has_no_angle_brackets() {
    let out = escape_xml_text("<script>alert('x')</script> > <");
    assert!(!out.contains('<') && !out.contains('>'));
}

#[test]
fn series_colors_cycle_through_the_palette() {
    assert_eq!(series_color(0), "#2c3e50");
    assert_eq!(series_color(5), "#a33333");
    assert_eq!(series_color(6), "#2c3e50");
    assert_eq!(series_color(8), "#a3623e");
}

#[test]
fn line_chart_legend_lists_each_batch_in_its_color() {
    let codes = vec!["24-01".to_string(), "24-02".to_string()];
    assert_eq!(
        line_chart_legend(&codes),
        r#"<div class="chart-legend"><span class="chart-legend__item"><span class="chart-legend__swatch" style="background:#2c3e50"></span>24-01</span><span class="chart-legend__item"><span class="chart-legend__swatch" style="background:#5b7a4f"></span>24-02</span></div>"#
    );
    assert_eq!(line_chart_legend(&[]), r#"<div class="chart-legend"></div>"#);
}

#[test]
fn day_offset_reads_iso_dates_through_chrono() {
    assert_eq!(day_offset("0001-01-01"), Some(1));
    assert_eq!(day_offset("1970-01-01"), Some(719163));
    assert_eq!(day_offset("2024-09-01"), Some(739130));
    assert_eq!(day_offset("2024-02-30"), None);
    assert_eq!(day_offset("yesterday"), None);
    assert_eq!(day_offset(""), None);
}

#[test]
fn month_abbreviations() {
    assert_eq!(month_abbrev(0), "Jan");
    assert_eq!(month_abbrev(8), "Sep");
    assert_eq!(month_abbrev(11), "Dec");
}

#[test]
fn week_gridlines_mark_mondays_in_range() {
    // 2024-09-02 (day 739131) is a Monday
    assert_eq!(week_gridlines(739127, 739143), vec![(739131, "Sep 2".to_string()), (739138, "Sep 9".to_string())]);
    // 61 days: every second week
    let days: Vec<i64> = week_gridlines(739130, 739191).into_iter().map(|(d, _)| d).collect();
    assert_eq!(days, vec![739131, 739145, 739159, 739173, 739187]);
    // a span with no Monday has no gridline
    assert_eq!(week_gridlines(739132, 739137), Vec::<(i64, String)>::new());
}

#[test]
fn gridlines_are_every_fourth_monday_on_a_long_axis() {
    let lo = day_offset("2024-08-15").unwrap();
    let hi = day_offset("2024-12-10").unwrap();
    let lines = week_gridlines(lo, hi);
    let expected: Vec<(i64, String)> = [("2024-08-19", "Aug 19"), ("2024-09-16", "Sep 16"), ("2024-10-14", "Oct 14"), ("2024-11-11", "Nov 11"), ("2024-12-09", "Dec 9")]
        .iter()
        .map(|(d, l)| (day_offset(d).unwrap(), l.to_string()))
        .collect();
    assert_eq!(lines, expected);
    // an axis starting on a Monday keeps it; across a year end
    let lines = week_gridlines(day_offset("2023-12-25").unwrap(), day_offset("2024-01-05").unwrap());
    assert_eq!(lines, vec![(day_offset("2023-12-25").unwrap(), "Dec 25".to_string()), (day_offset("2024-01-01").unwrap(), "Jan 1".to_string())]);
    // more than 32 weeks: every eighth week
    let lines = week_gridlines(day_offset("2024-01-01").unwrap(), day_offset("2024-12-31").unwrap());
    assert_eq!(lines.len(), 7);
    assert_eq!(lines[1].0 - lines[0].0, 56);
}

#[test]
fn every_bar_sits_inside_the_shared_axis() {
    // the earliest start is drawn three days in from the left end (x=90),
    // the latest end three days in from the right end (x=620)
    let rows = vec![
        row("A", "2024-09-10", None, None, None, "2024-09-20"),
        row("B", "2024-09-05", None, None, None, "2024-09-25"),
    ];
    let svg = render_season_timeline(&rows);
    // span = 2024-09-02 .. 2024-09-28 = 26 days; start B at 3 days: 90 + 3/26*530 = 151.2
    assert!(svg.contains(r#"<rect x="151.2" y="50.0""#));
    // end of B at 23 days: 90 + 23/26*530 = 558.8, width 558.8 - 151.2
    assert!(svg.contains(r#"width="407.7""#));
}

#[test]
fn timeline_of_one_batch_still_fermenting() {
    let rows = vec![row("B1", "2024-09-01", None, None, None, "2024-09-11")];
    let expected = format!("{}{}", r##"<svg viewBox="0 0 640 76" xmlns="http://www.w3.org/2000/svg" class="chart-svg"><line x1="222.5" y1="16.0" x2="222.5" y2="56.0" stroke="#ddd6c8" stroke-width="1" /><text x="222.5" y="72.0" font-size="11" fill="#746f66" text-anchor="middle">Sep 2</text><line x1="454.4" y1="16.0" x2="454.4" y2="56.0" stroke="#ddd6c8" stroke-width="1" /><text x="454.4" y="72.0" font-size="11" fill="#746f66" text-anchor="middle">Sep 9</text><text x="82.0" y="28.0" font-size="12" fill="#3a352c" text-anchor="end">B1</text><rect x="189.4" y="16.0" width="331.2" height="16.0" fill="#5b7a4f" rx="2" /><line x1="90.0" y1="56.0" x2="620.0" y2="56.0" stroke="#8899aa" stroke-width="1" /></svg>"##, PHASE_LEGEND);
    assert_eq!(render_season_timeline(&rows), expected);
}

#[test]
fn timeline_draws_phases_failure_and_single_day_batches() {
    let rows = vec![
        row("A", "2024-09-20", Some("2024-10-05"), Some("2024-11-02"), None, "2024-11-02"),
        row("B", "2024-09-25", None, None, Some("2024-10-01"), "2024-10-01"),
        row("C", "2024-10-10", None, None, None, "2024-10-10"),
    ];
    let expected = format!("{}{}", r##"<svg viewBox="0 0 640 144" xmlns="http://www.w3.org/2000/svg" class="chart-svg"><line x1="154.9" y1="16.0" x2="154.9" y2="124.0" stroke="#ddd6c8" stroke-width="1" /><text x="154.9" y="140.0" font-size="11" fill="#746f66" text-anchor="middle">Sep 23</text><line x1="230.6" y1="16.0" x2="230.6" y2="124.0" stroke="#ddd6c8" stroke-width="1" /><text x="230.6" y="140.0" font-size="11" fill="#746f66" text-anchor="middle">Sep 30</text><line x1="306.3" y1="16.0" x2="306.3" y2="124.0" stroke="#ddd6c8" stroke-width="1" /><text x="306.3" y="140.0" font-size="11" fill="#746f66" text-anchor="middle">Oct 7</text><line x1="382.0" y1="16.0" x2="382.0" y2="124.0" stroke="#ddd6c8" stroke-width="1" /><text x="382.0" y="140.0" font-size="11" fill="#746f66" text-anchor="middle">Oct 14</text><line x1="457.8" y1="16.0" x2="457.8" y2="124.0" stroke="#ddd6c8" stroke-width="1" /><text x="457.8" y="140.0" font-size="11" fill="#746f66" text-anchor="middle">Oct 21</text><line x1="533.5" y1="16.0" x2="533.5" y2="124.0" stroke="#ddd6c8" stroke-width="1" /><text x="533.5" y="140.0" font-size="11" fill="#746f66" text-anchor="middle">Oct 28</text><line x1="609.2" y1="16.0" x2="609.2" y2="124.0" stroke="#ddd6c8" stroke-width="1" /><text x="609.2" y="140.0" font-size="11" fill="#746f66" text-anchor="middle">Nov 4</text><text x="82.0" y="28.0" font-size="12" fill="#3a352c" text-anchor="end">A</text><rect x="122.4" y="16.0" width="162.2" height="16.0" fill="#5b7a4f" rx="2" /><rect x="284.7" y="16.0" width="302.9" height="16.0" fill="#a3623e" rx="2" /><circle cx="587.6" cy="24.0" r="4" fill="#2c3e50" /><text x="82.0" y="62.0" font-size="12" fill="#3a352c" text-anchor="end">B</text><rect x="176.5" y="50.0" width="64.9" height="16.0" fill="#a33333" rx="2" /><text x="82.0" y="96.0" font-size="12" fill="#3a352c" text-anchor="end">C</text><circle cx="338.8" cy="92.0" r="5" fill="#5b7a4f" /><line x1="90.0" y1="124.0" x2="620.0" y2="124.0" stroke="#8899aa" stroke-width="1" /></svg>"##, PHASE_LEGEND);
    assert_eq!(render_season_timeline(&rows), expected);
}

#[test]
fn timeline_leaves_out_rows_whose_dates_do_not_parse() {
    let rows = vec![
        row("X", "not a date", None, None, None, "2024-09-11"),
        row("Y", "2024-03-05", None, None, None, "2024-03-07"),
    ];
    let expected = format!("{}{}", r##"<svg viewBox="0 0 640 76" xmlns="http://www.w3.org/2000/svg" class="chart-svg"><line x1="222.5" y1="16.0" x2="222.5" y2="56.0" stroke="#ddd6c8" stroke-width="1" /><text x="222.5" y="72.0" font-size="11" fill="#746f66" text-anchor="middle">Mar 4</text><text x="82.0" y="28.0" font-size="12" fill="#3a352c" text-anchor="end">Y</text><rect x="288.8" y="16.0" width="132.5" height="16.0" fill="#5b7a4f" rx="2" /><line x1="90.0" y1="56.0" x2="620.0" y2="56.0" stroke="#8899aa" stroke-width="1" /></svg>"##, PHASE_LEGEND);
    assert_eq!(render_season_timeline(&rows), expected);
}

#[test]
fn timeline_without_batches_says_so() {
    assert_eq!(
        render_season_timeline(&[]),
        "<p class=\"muted\">No batches with logged events yet.</p>"
    );
    let rows = vec![row("X", "someday", None, None, None, "2024-09-11")];
    assert_eq!(
        render_season_timeline(&rows),
        "<p class=\"muted\">No batches with logged events yet.</p>"
    );
}

#[test]
fn timeline_refuses_a_bar_that_ends_before_it_starts() {
    let rows = vec![row("Z", "2024-09-10", None, None, None, "2024-09-01")];
    assert_eq!(try_render_season_timeline(&rows), None);
    let ok = vec![row("B1", "2024-09-01", None, None, None, "2024-09-11")];
    assert_eq!(try_render_season_timeline(&ok), Some(render_season_timeline(&ok)));
}

#[test]
fn unescaping_gives_the_text_back() {
    for s in ["a < b && c > d", "&amp;lt;", "<<>>&&", "", "plain", "&gt;&lt;&amp;", "café & <b>"] {
        let r = escape_xml_text(s);
        assert!(!r.contains('<') && !r.contains('>'));
        assert_eq!(r.replace("&lt;", "<").replace("&gt;", ">").replace("&amp;", "&"), s);
    }
}

#[test]
fn different_iso_texts_read_as_different_days() {
    let days = ["2024-02-28", "2024-02-29", "2024-03-01", "2023-12-31", "0001-01-01", "9999-12-31"];
    for a in days {
        for b in days {
            let (x, y) = (day_offset(a).unwrap(), day_offset(b).unwrap());
            assert_eq!(a == b, x == y, "{a} {b}");
            assert_eq!(a < b, x < y, "{a} {b}");
        }
    }
}

fn crate_x(day: i64, lo: i64, span: i64) -> String {
    let mut out = String::new();
    push_binary(&mut out, timeline_x_exec(day, lo, span));
    out
}

fn float_x(day: i64, lo: i64, span: i64) -> f64 {
    90.0 + (day - lo) as f64 / span as f64 * 530.0
}

#[test]
fn timeline_positions_are_the_f64_positions() {
    assert_eq!(crate_x(1, 0, 200), "92.7");
    assert_eq!(crate_x(1, 0, 200), format!("{:.1}", float_x(1, 0, 200)));
    for span in [1i64, 2, 3, 7, 24, 53, 100, 200, 365, 1000, 4096, 99_991, 2_000_000_000] {
        for k in [-3i64, -1, 0, 1, 2, 3, 5, 10, 21, 33, 99, 150, 199, 200, 365, 1_999_999_999] {
            assert_eq!(crate_x(k + 17, 17, span), format!("{:.1}", float_x(k + 17, 17, span)), "k={k} span={span}");
        }
    }
}

#[test]
fn timeline_widths_are_the_f64_widths() {
    for span in [3i64, 7, 24, 200, 365, 1234] {
        for a in 0..span.min(40) {
            for b in [a, a + 1, a + 3, span] {
                let x0 = timeline_x_exec(a, 0, span);
                let x1 = timeline_x_exec(b, 0, span);
                let mut out = String::new();
                push_binary(&mut out, binary_sub_exec(x1, x0));
                let w = float_x(b, 0, span) - float_x(a, 0, span);
                assert_eq!(out, format!("{w:.1}"), "a={a} b={b} span={span}");
            }
        }
    }
}

#[test]
fn one_decimal_ties_follow_float_formatting() {
    for (n, p, v) in [(1i128, 2u32, 0.25f64), (3, 2, 0.75), (-1, 2, -0.25), (371, 2, 92.75), (185, 1, 92.5), (-7, 3, -0.875), (-1, 82, -(2f64).powi(-82)), (3, 84, 3.0 * (2f64).powi(-84)), (-5, 81, -5.0 * (2f64).powi(-81))] {
        let mut out = String::new();
        push_binary(&mut out, (n, p));
        assert_eq!(out, format!("{v:.1}"), "{v}");
    }
}
