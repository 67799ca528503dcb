use ciderhub::batches::{
    batch_statuses, bottle_total, bottle_total_checked, bottling_summary, compute_status, event_dates, parse_juicing_submission,
    sort_timeline, starting_gravity_known, str_le, with_notes, BatchDetail, JuicingError, JuicingFields,
    TimelineRow, TreeSelection,
};
use ciderhub::numbers::NumberError;

fn types(list: &[&str]) -> Vec<String> {
    list.iter().map(|s| s.to_string()).collect()
}

#[test]
fn status_follows_the_most_advanced_event() {
    assert_eq!(compute_status(&types(&[])), "planning");
    assert_eq!(compute_status(&types(&["tasting"])), "planning");
    assert_eq!(compute_status(&types(&["juicing"])), "fermenting");
    assert_eq!(compute_status(&types(&["additive"])), "fermenting");
    assert_eq!(compute_status(&types(&["measurement", "juicing"])), "fermenting");
    assert_eq!(compute_status(&types(&["juicing", "racking"])), "conditioning");
    assert_eq!(compute_status(&types(&["racking", "bottling", "juicing"])), "bottled");
    assert_eq!(compute_status(&types(&["bottling", "failed"])), "failed");
    assert_eq!(compute_status(&types(&["failed"])), "failed");
}

#[test]
fn status_never_moves_back_as_events_are_logged() {
    let log = ["juicing", "measurement", "racking", "tasting", "bottling", "failed"];
    let rank = |s: &str| ["planning", "fermenting", "conditioning", "bottled", "failed"].iter().position(|x| *x == s).unwrap();
    let mut last = 0;
    for k in 0..=log.len() {
        let r = rank(compute_status(&types(&log[..k])));
        assert!(r >= last);
        last = r;
    }
}

#[test]
fn status_ignores_order_and_repeats() {
    assert_eq!(
        compute_status(&types(&["racking", "juicing", "racking"])),
        compute_status(&types(&["juicing", "racking"]))
    );
}

#[test]
fn statuses_are_grouped_per_batch() {
    let events = vec![
        (1, "juicing".to_string()),
        (2, "juicing".to_string()),
        (1, "racking".to_string()),
        (3, "failed".to_string()),
    ];
    assert_eq!(batch_statuses(&[1, 2, 3, 4], &events), vec!["conditioning", "fermenting", "failed", "planning"]);
}

#[test]
fn batch_detail_derives_its_status() {
    let d = BatchDetail::new(
        7,
        "24-07".to_string(),
        Some("Bramley".to_string()),
        2024,
        None,
        Some("2024-09-20".to_string()),
        &types(&["juicing"]),
    );
    assert_eq!(d.id, 7);
    assert_eq!(d.code, "24-07");
    assert_eq!(d.name.as_deref(), Some("Bramley"));
    assert_eq!(d.status, "fermenting");
    assert_eq!(d.season_year, 2024);
    assert_eq!(d.notes, None);
    assert_eq!(d.started_on.as_deref(), Some("2024-09-20"));
}

#[test]
fn notes_are_appended_after_a_dash() {
    assert_eq!(with_notes("Racked 20.0 L".to_string(), Some("cloudy".to_string())), "Racked 20.0 L — cloudy");
    assert_eq!(with_notes("Racked 20.0 L".to_string(), Some(String::new())), "Racked 20.0 L");
    assert_eq!(with_notes("Racked 20.0 L".to_string(), None), "Racked 20.0 L");
}

#[test]
fn bottling_summary_text() {
    assert_eq!(bottling_summary(24, 500, None, None), "24 × 500 ml bottles");
    assert_eq!(
        bottling_summary(12, 750, Some("priming sugar".to_string()), Some("first run".to_string())),
        "12 × 750 ml bottles (priming sugar) — first run"
    );
    assert_eq!(bottling_summary(6, 330, Some(String::new()), None), "6 × 330 ml bottles");
}

fn trow(id: i64, at: &str) -> TimelineRow {
    TimelineRow {
        event_id: id,
        occurred_at: at.to_string(),
        kind_label: "Measurement",
        kind_slug: "measurement",
        summary: format!("#{id}"),
    }
}

#[test]
fn timeline_is_sorted_by_date_keeping_ties_in_order() {
    let mut rows = vec![
        trow(1, "2024-10-05"),
        trow(2, "2024-09-20"),
        trow(3, "2024-10-05"),
        trow(4, "2024-09-01"),
        trow(5, "2024-09-20"),
    ];
    sort_timeline(&mut rows);
    let ids: Vec<i64> = rows.iter().map(|r| r.event_id).collect();
    assert_eq!(ids, vec![4, 2, 5, 1, 3]);
    let mut expected = vec![
        trow(1, "2024-10-05"),
        trow(2, "2024-09-20"),
        trow(3, "2024-10-05"),
        trow(4, "2024-09-01"),
        trow(5, "2024-09-20"),
    ];
    expected.sort_by(|a, b| a.occurred_at.cmp(&b.occurred_at));
    let std_ids: Vec<i64> = expected.iter().map(|r| r.event_id).collect();
    assert_eq!(ids, std_ids);
}

#[test]
fn text_order_is_string_order() {
    for (a, b) in [("2024-09-01", "2024-10-01"), ("b", "a"), ("", "x"), ("ab", "a"), ("é", "z"), ("same", "same")] {
        assert_eq!(str_le(a, b), a <= b, "{a:?} {b:?}");
    }
}

fn fields(month: Option<&str>, day: Option<&str>, volume: Option<&str>) -> JuicingFields {
    JuicingFields {
        month: month.map(|s| s.to_string()),
        day: day.map(|s| s.to_string()),
        output_volume_l: volume.map(|s| s.to_string()),
        equipment: Some("  rack press ".to_string()),
        notes: Some("   ".to_string()),
        trees: vec![
            TreeSelection { tree_id: 1, used: true, percentage: Some(" 60 ".to_string()) },
            TreeSelection { tree_id: 2, used: false, percentage: None },
            TreeSelection { tree_id: 3, used: true, percentage: Some("40".to_string()) },
        ],
    }
}

#[test]
fn juicing_submission_is_read_and_trimmed() {
    let sub = parse_juicing_submission(&fields(Some(" 9 "), Some("21"), Some(" 18.5"))).ok().unwrap();
    assert_eq!((sub.month, sub.day), (9, 21));
    assert_eq!(sub.output_volume_l, "18.5");
    assert_eq!(sub.equipment.as_deref(), Some("rack press"));
    assert_eq!(sub.notes, None);
    assert_eq!(sub.tree_percentages, vec![(1, "60".to_string()), (3, "40".to_string())]);
}

#[test]
fn a_ticked_tree_needs_a_percentage() {
    let mut f = fields(Some("9"), Some("21"), Some("18"));
    f.trees[1].used = true;
    let err = parse_juicing_submission(&f).err().unwrap();
    assert!(matches!(err, JuicingError::MissingPercentage(2)));
    assert_eq!(err.message(), "missing required field: percentage_tree_2");
    f.trees[1].percentage = Some("  ".to_string());
    assert!(matches!(parse_juicing_submission(&f), Err(JuicingError::MissingPercentage(2))));
    f.trees[0].percentage = None;
    assert!(matches!(parse_juicing_submission(&f), Err(JuicingError::MissingPercentage(1))));
    f.trees[0].used = false;
    f.trees[1].used = false;
    assert!(parse_juicing_submission(&f).is_ok());
}

#[test]
fn no_ticked_tree_needs_no_percentage() {
    let mut f = fields(Some("9"), Some("21"), Some("18"));
    for t in f.trees.iter_mut() {
        t.used = false;
        t.percentage = None;
    }
    let sub = parse_juicing_submission(&f).ok().unwrap();
    assert!(sub.tree_percentages.is_empty());
}

#[test]
fn missing_volume_is_named_before_a_missing_percentage() {
    let mut f = fields(Some("9"), Some("21"), None);
    f.trees[0].percentage = None;
    let err = parse_juicing_submission(&f).err().unwrap();
    assert_eq!(err.message(), "missing required field: output_volume_l");
}

#[test]
fn juicing_submission_names_the_missing_field() {
    let err = parse_juicing_submission(&fields(None, Some("21"), Some("18"))).err().unwrap();
    assert!(matches!(err, JuicingError::Missing("month")));
    assert_eq!(err.message(), "missing required field: month");
    let err = parse_juicing_submission(&fields(Some("9"), Some(" "), Some("18"))).err().unwrap();
    assert!(matches!(err, JuicingError::Missing("day")));
    let err = parse_juicing_submission(&fields(Some("9"), Some("1"), None)).err().unwrap();
    assert_eq!(err.message(), "missing required field: output_volume_l");
}

#[test]
fn juicing_submission_refuses_a_month_that_is_not_a_number() {
    let err = parse_juicing_submission(&fields(Some("Sept"), Some("21"), Some("18"))).err().unwrap();
    assert!(matches!(err, JuicingError::NotANumber("month", NumberError::InvalidDigit)));
    assert_eq!(err.message(), "invalid digit found in string");
    let err = parse_juicing_submission(&fields(Some("9"), Some("-1"), Some("18"))).err().unwrap();
    assert!(matches!(err, JuicingError::NotANumber("day", NumberError::InvalidDigit)));
}

fn ev(id: i64, kind: &str, at: &str) -> (i64, String, String) {
    (id, kind.to_string(), at.to_string())
}

#[test]
fn first_dates_of_a_batch() {
    let events = vec![
        ev(2, "additive", "2024-09-01"),
        ev(1, "measurement", "2024-09-02"),
        ev(1, "juicing", "2024-09-03"),
        ev(1, "juicing", "2024-09-04"),
        ev(1, "bottling", "2024-11-01"),
        ev(1, "failed", "2024-11-05"),
    ];
    let d = event_dates(&events, 1);
    assert_eq!(d.first.as_deref(), Some("2024-09-02"));
    assert_eq!(d.juicing.as_deref(), Some("2024-09-03"));
    assert_eq!(d.racking, None);
    assert_eq!(d.bottling.as_deref(), Some("2024-11-01"));
    assert_eq!(d.failed.as_deref(), Some("2024-11-05"));
    let none = event_dates(&events, 3);
    assert!(none.first.is_none() && none.juicing.is_none() && none.bottling.is_none());
}

#[test]
fn starting_gravity_is_known_only_from_pressing_day() {
    let day = |s: &str| Some(s.to_string());
    assert!(starting_gravity_known(&day("2024-09-03"), &day("2024-09-03")));
    assert!(!starting_gravity_known(&day("2024-09-03"), &day("2024-09-04")));
    assert!(!starting_gravity_known(&None, &day("2024-09-03")));
    assert!(!starting_gravity_known(&day("2024-09-03"), &None));
}

#[test]
fn bottles_are_summed_over_sessions() {
    let rows = vec![(1, 24), (2, 6), (1, 12)];
    assert_eq!(bottle_total(&rows, 1), Some(36));
    assert_eq!(bottle_total(&rows, 2), Some(6));
    assert_eq!(bottle_total(&rows, 3), None);
}

#[test]
fn bottle_totals_that_overflow_are_refused() {
    let rows = vec![(1, 24), (2, 6), (1, 12)];
    assert_eq!(bottle_total_checked(&rows, 1), Some(Some(36)));
    assert_eq!(bottle_total_checked(&rows, 3), Some(None));
    let big = vec![(1, i64::MAX), (2, 5), (1, 1)];
    assert_eq!(bottle_total_checked(&big, 1), None);
    assert_eq!(bottle_total_checked(&big, 2), Some(Some(5)));
    let back = vec![(1, i64::MAX), (1, -1)];
    assert_eq!(bottle_total_checked(&back, 1), Some(Some(i64::MAX - 1)));
}
