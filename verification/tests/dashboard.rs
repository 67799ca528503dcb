use ciderhub::charts::try_render_season_timeline;
use ciderhub::dashboard::{
    batch_code_for, batch_options, batch_phases, chart_metrics, chart_series, metric_options, metrics,
    parse_selection, season_options,
};

fn strings(list: &[&str]) -> Vec<String> {
    list.iter().map(|s| s.to_string()).collect()
}

#[test]
fn selection_collects_batch_ids_and_metrics_in_order() {
    let (ids, metrics) = parse_selection("batch_id=3&metric=ph&batch_id=1&metric=score");
    assert_eq!(ids, vec![3, 1]);
    assert_eq!(metrics, strings(&["ph", "score"]));
}

#[test]
fn selection_skips_what_does_not_read() {
    let (ids, metrics) = parse_selection("batch_id=x&batch_id=&other=1&batch_id=-2&metric&metric=a=b&&batch_id");
    assert_eq!(ids, vec![-2]);
    assert_eq!(metrics, strings(&["", "a=b"]));
    assert_eq!(parse_selection(""), (vec![], vec![]));
}

fn batches() -> Vec<(i64, String)> {
    vec![(1, "24-01".to_string()), (2, "24-02".to_string()), (3, "24-03".to_string()), (1, "again".to_string())]
}

fn ev(id: i64, kind: &str, at: &str) -> (i64, String, String) {
    (id, kind.to_string(), at.to_string())
}

#[test]
fn phases_come_from_the_first_event_of_each_kind() {
    let events = vec![
        ev(1, "juicing", "2024-09-20"),
        ev(2, "juicing", "2024-09-25"),
        ev(2, "failed", "2024-10-01"),
        ev(1, "racking", "2024-10-05"),
        ev(1, "bottling", "2024-11-02"),
        ev(1, "racking", "2024-11-05"),
    ];
    let rows = batch_phases(&batches(), &events, "2024-12-01");
    assert_eq!(rows.len(), 2);
    assert_eq!(rows[0].code, "24-01");
    assert_eq!(rows[0].start, "2024-09-20");
    assert_eq!(rows[0].racking_at.as_deref(), Some("2024-10-05"));
    assert_eq!(rows[0].bottling_at.as_deref(), Some("2024-11-02"));
    assert_eq!(rows[0].failed_at, None);
    assert_eq!(rows[0].end, "2024-11-02");
    assert_eq!(rows[1].code, "24-02");
    assert_eq!(rows[1].start, "2024-09-25");
    assert_eq!(rows[1].racking_at, None);
    assert_eq!(rows[1].failed_at.as_deref(), Some("2024-10-01"));
    assert_eq!(rows[1].end, "2024-10-01");
}

#[test]
fn batch_in_progress_runs_until_today() {
    let events = vec![ev(3, "juicing", "2024-10-10")];
    let rows = batch_phases(&batches(), &events, "2024-10-20");
    assert_eq!(rows.len(), 1);
    assert_eq!(rows[0].code, "24-03");
    assert_eq!(rows[0].end, "2024-10-20");
}

#[test]
fn future_dated_event_never_ends_the_bar_before_it_starts() {
    let events = vec![ev(3, "juicing", "2025-01-10")];
    let rows = batch_phases(&batches(), &events, "2024-12-01");
    assert_eq!(rows[0].start, "2025-01-10");
    assert_eq!(rows[0].end, "2025-01-10");
    for r in &rows {
        assert!(r.start <= r.end);
    }
}

#[test]
fn season_picker_defaults_to_the_newest_season() {
    let seasons = vec![(5, 2025), (4, 2024)];
    let (options, selected) = season_options(&seasons, None);
    assert_eq!(selected, Some(5));
    assert_eq!(options.iter().map(|o| (o.id, o.year, o.selected)).collect::<Vec<_>>(), vec![(5, 2025, true), (4, 2024, false)]);
    let (options, selected) = season_options(&seasons, Some(4));
    assert_eq!(selected, Some(4));
    assert!(!options[0].selected && options[1].selected);
    let (options, selected) = season_options(&[], None);
    assert!(options.is_empty());
    assert_eq!(selected, None);
}

#[test]
fn metric_table_in_chart_order() {
    assert_eq!(
        metrics(),
        vec![
            ("specific_gravity", "Specific Gravity"),
            ("ph", "pH"),
            ("temperature_c", "Temperature (°C)"),
            ("volume_l", "Volume (L)"),
            ("score", "Taste Score"),
        ]
    );
}

#[test]
fn charts_follow_the_table_order_once_each() {
    let chosen = chart_metrics(&strings(&["score", "ph", "nonsense", "ph"]));
    assert_eq!(chosen, vec![("ph", "pH"), ("score", "Taste Score")]);
    assert!(chart_metrics(&[]).is_empty());
}

#[test]
fn metric_picker_ticks_the_selected_metrics() {
    let options = metric_options(&strings(&["volume_l"]));
    let ticked: Vec<(&str, bool)> = options.iter().map(|o| (o.slug, o.checked)).collect();
    assert_eq!(
        ticked,
        vec![("specific_gravity", false), ("ph", false), ("temperature_c", false), ("volume_l", true), ("score", false)]
    );
    assert_eq!(options[2].label, "Temperature (°C)");
}

#[test]
fn batch_picker_ticks_the_selected_batches() {
    let options = batch_options(&batches()[..3], &[3, 9]);
    let ticked: Vec<(i64, &str, bool)> = options.iter().map(|o| (o.id, o.code.as_str(), o.checked)).collect();
    assert_eq!(ticked, vec![(1, "24-01", false), (2, "24-02", false), (3, "24-03", true)]);
}

#[test]
fn legend_code_falls_back_to_the_id() {
    assert_eq!(batch_code_for(&batches(), 2), "24-02");
    assert_eq!(batch_code_for(&batches(), 1), "24-01");
    assert_eq!(batch_code_for(&batches(), 42), "#42");
    assert_eq!(batch_code_for(&[], -3), "#-3");
}

#[test]
fn start_is_the_earliest_event_when_events_come_in_date_order() {
    let events = vec![
        ev(2, "measurement", "2024-09-02"),
        ev(1, "additive", "2024-09-10"),
        ev(1, "juicing", "2024-09-12"),
        ev(1, "racking", "2024-10-01"),
    ];
    let rows = batch_phases(&batches(), &events, "2024-12-01");
    let first = rows.iter().find(|r| r.code == "24-01").unwrap();
    let earliest = events.iter().filter(|e| e.0 == 1).map(|e| e.2.clone()).min().unwrap();
    assert_eq!(first.start, earliest);
}

#[test]
fn the_submitted_selection_reads_back() {
    let ids: Vec<i64> = vec![12, -3, 0, i64::MAX, i64::MIN];
    let metrics = strings(&["ph", "score", "a=b", ""]);
    let mut pairs: Vec<String> = ids.iter().map(|id| format!("batch_id={id}")).collect();
    pairs.extend(metrics.iter().map(|m| format!("metric={m}")));
    let query = pairs.join("&");
    assert_eq!(parse_selection(&query), (ids, metrics));
}

#[test]
fn season_overview_of_iso_dated_events_always_draws() {
    let events = vec![
        ev(1, "juicing", "2024-09-20"),
        ev(2, "juicing", "2024-12-25"),
        ev(1, "failed", "2024-09-20"),
        ev(3, "racking", "2025-01-05"),
        ev(3, "bottling", "2024-12-30"),
    ];
    for today in ["2024-09-01", "2024-12-31", "2025-06-01"] {
        let rows = batch_phases(&batches(), &events, today);
        assert_eq!(rows.len(), 3);
        assert!(try_render_season_timeline(&rows).is_some(), "{today}");
    }
}

#[test]
fn joined_queries_select_both_selections() {
    let a = "batch_id=3&metric=ph&batch_id=x";
    let b = "metric=score&batch_id=7";
    let (x, y) = parse_selection(a);
    let (u, w) = parse_selection(b);
    let (ids, ms) = parse_selection(&format!("{a}&{b}"));
    assert_eq!(ids, [x, u].concat());
    assert_eq!(ms, [y, w].concat());
    assert_eq!(ids, vec![3, 7]);
    assert_eq!(ms, strings(&["ph", "score"]));
}

#[test]
fn phase_dates_fall_after_the_start_and_end_the_bar() {
    let events = vec![
        ev(1, "juicing", "2024-09-20"),
        ev(2, "juicing", "2024-09-25"),
        ev(1, "racking", "2024-10-05"),
        ev(2, "bottling", "2024-10-30"),
        ev(2, "failed", "2024-11-01"),
        ev(1, "bottling", "2024-11-02"),
    ];
    let rows = batch_phases(&batches(), &events, "2024-12-01");
    for r in &rows {
        for d in [&r.racking_at, &r.bottling_at, &r.failed_at].into_iter().flatten() {
            assert!(r.start.as_str() <= d.as_str());
        }
        match (&r.failed_at, &r.bottling_at) {
            (Some(f), _) => assert_eq!(&r.end, f),
            (None, Some(b)) => assert_eq!(&r.end, b),
            (None, None) => assert_eq!(r.end, "2024-12-01"),
        }
    }
    assert_eq!(rows[1].end, "2024-11-01");
}

fn dates(list: &[&str]) -> Vec<String> {
    strings(list)
}

#[test]
fn chart_series_count_days_from_the_first_juicing() {
    let juicing = vec![(1, "2024-09-20".to_string()), (2, "2024-09-25".to_string()), (1, "2024-09-30".to_string())];
    let readings = vec![
        dates(&["2024-09-20", "not a date", "2024-09-22"]),
        dates(&["2024-09-25"]),
        dates(&["2024-10-01"]),
        dates(&[]),
    ];
    let series = chart_series(&[1, 3, 2, 2], &juicing, &readings);
    assert_eq!(series, vec![(1, vec![(0, 0), (2, 2)]), (2, vec![(0, 6)])]);
}

#[test]
fn chart_series_skip_batches_without_points() {
    let juicing = vec![(5, "2024-09-20".to_string())];
    let readings = vec![dates(&["2024-09-10"]), dates(&["??"])];
    let series = chart_series(&[5, 5], &juicing, &readings);
    assert_eq!(series, vec![(5, vec![(0, -10)])]);
    assert!(chart_series(&[], &juicing, &[]).is_empty());
}
