use ciderhub::batches::{
    additive_summary, build_tree_fields, failure_summary, join, juicing_summary, measurement_summary,
    racking_summary, suggest_next_code, tasting_summary,
};
use ciderhub::charts::{days_since, point_tooltip};
use ciderhub::dashboard::{metric_source, MetricSource};
use ciderhub::models::Tree;

fn some(s: &str) -> Option<String> {
    Some(s.to_string())
}

// The juicing summary as written with floats: trees (name, percentage),
// output volume, equipment, notes; each tree's liters are its share of the
// volume.
fn float_juicing(trees: &[(&str, Option<f64>)], vol: f64, eq: Option<&str>, notes: Option<&str>) -> String {
    let parts: Vec<String> = trees
        .iter()
        .map(|(name, p)| match p {
            Some(p) => format!("{name} ({p:.0}%, {:.1} L)", vol * p / 100.0),
            None => name.to_string(),
        })
        .collect();
    let trees_note = if parts.is_empty() { String::new() } else { format!(" from {}", parts.join(", ")) };
    let eq_note = match eq {
        Some(e) if !e.is_empty() => format!(" via {e}"),
        _ => String::new(),
    };
    let mut s = format!("Pressed{trees_note} to {vol:.1} L{eq_note}");
    if let Some(n) = notes.filter(|n| !n.is_empty()) {
        s.push_str(&format!(" — {n}"));
    }
    s
}

fn share(p: &str, l: &str) -> Option<(String, String)> {
    Some((p.to_string(), l.to_string()))
}

#[test]
fn juicing_summary_reads_like_the_event() {
    let trees = vec![("Alpha".to_string(), share("60", "12.0")), ("Beta".to_string(), share("40", "8.0"))];
    assert_eq!(juicing_summary(&trees, "20.0", None, None), "Pressed from Alpha (60%, 12.0 L), Beta (40%, 8.0 L) to 20.0 L");
    assert_eq!(
        juicing_summary(&trees, "20.0", None, None),
        float_juicing(&[("Alpha", Some(60.0)), ("Beta", Some(40.0))], 20.0, None, None)
    );
    let trees = vec![("Bramley".to_string(), share("75", "13.9")), ("Cox".to_string(), None)];
    assert_eq!(
        juicing_summary(&trees, "18.5", some("rack press"), some("sunny")),
        "Pressed from Bramley (75%, 13.9 L), Cox to 18.5 L via rack press — sunny"
    );
    assert_eq!(juicing_summary(&[], "18.0", some(""), None), "Pressed to 18.0 L");
    assert_eq!(juicing_summary(&[], "18.0", some(""), None), float_juicing(&[], 18.0, Some(""), None));
}

#[test]
fn joining_matches_std() {
    let parts = vec!["a".to_string(), "".to_string(), "c".to_string()];
    assert_eq!(join(&parts, ", "), parts.join(", "));
    assert_eq!(join(&[], ", "), "");
    assert_eq!(join(&["x".to_string()], "-"), "x");
}

#[test]
fn additive_summary_text() {
    assert_eq!(additive_summary("2.5", "g", "yeast", None), "2.5 g yeast");
    assert_eq!(additive_summary(&format!("{}", 5.0f64), "ml", "pectolase", some("before pressing")), "5 ml pectolase — before pressing");
}

#[test]
fn measurement_summary_lists_the_readings() {
    assert_eq!(
        measurement_summary(some("1.050"), some("3.40"), None, some("20.0"), some("fruity"), some("day 3")),
        "SG 1.050, pH 3.40, 20.0 L, fruity — day 3"
    );
    assert_eq!(measurement_summary(None, None, some("18.5"), None, some(""), None), "18.5°C");
    assert_eq!(measurement_summary(None, None, None, None, None, None), "measurement logged");
    assert_eq!(measurement_summary(None, None, None, None, some(""), some("checked")), "measurement logged — checked");
}

#[test]
fn racking_summary_text() {
    assert_eq!(racking_summary("19.5", some("0.5"), None), "Racked 19.5 L (lost 0.5 L)");
    assert_eq!(racking_summary("19.5", None, some("clear")), "Racked 19.5 L — clear");
}

#[test]
fn failure_summary_is_its_note() {
    assert_eq!(failure_summary(None), "Batch marked as failed");
    assert_eq!(failure_summary(some("")), "Batch marked as failed");
    assert_eq!(failure_summary(some("acetic")), "acetic");
}

#[test]
fn tasting_summary_text() {
    assert_eq!(tasting_summary(8, some("crisp"), some("two months in")), "Scored 8/10, crisp — two months in");
    assert_eq!(tasting_summary(0, some(""), None), "Scored 0/10");
    assert_eq!(tasting_summary(10, None, None), "Scored 10/10");
}

fn tree(id: i64, name: &str) -> Tree {
    Tree { id, name: name.to_string(), variety: None, planted_on: None, location: None, notes: None }
}

#[test]
fn tree_fields_tick_the_trees_of_the_event() {
    let trees = vec![tree(1, "Bramley"), tree(2, "Cox"), tree(3, "Discovery")];
    let fields = build_tree_fields(&trees, &[(3, Some(2.5f64)), (1, None), (3, Some(4.0))]);
    let seen: Vec<(i64, &str, bool, Option<f64>)> =
        fields.iter().map(|f| (f.tree_id, f.tree_name.as_str(), f.checked, f.percentage)).collect();
    assert_eq!(seen, vec![(1, "Bramley", true, None), (2, "Cox", false, None), (3, "Discovery", true, Some(4.0))]);
    let blank = build_tree_fields::<f64>(&trees, &[]);
    assert!(blank.iter().all(|f| !f.checked && f.percentage.is_none()));
}

#[test]
fn metric_sources() {
    assert_eq!(metric_source("specific_gravity"), Some(MetricSource::Measurement));
    assert_eq!(metric_source("ph"), Some(MetricSource::Measurement));
    assert_eq!(metric_source("temperature_c"), Some(MetricSource::Measurement));
    assert_eq!(metric_source("volume_l"), Some(MetricSource::Measurement));
    assert_eq!(metric_source("score"), Some(MetricSource::Tasting));
    assert_eq!(metric_source("abv"), None);
}

#[test]
fn next_code_takes_the_first_free_letter_of_the_season() {
    let codes: Vec<String> = ["2026-A", "2026-C", "2025-B", "Special", "2026-b"].iter().map(|s| s.to_string()).collect();
    assert_eq!(suggest_next_code(2026, &codes).as_deref(), Some("2026-B"));
    assert_eq!(suggest_next_code(2025, &codes).as_deref(), Some("2025-A"));
    assert_eq!(suggest_next_code(2027, &[]).as_deref(), Some("2027-A"));
    let full: Vec<String> = ('A'..='Z').map(|c| format!("2026-{c}")).collect();
    assert_eq!(suggest_next_code(2026, &full), None);
}

#[test]
fn chart_days_count_from_juicing() {
    assert_eq!(days_since("2024-09-01", "2024-09-11"), Some(10));
    assert_eq!(days_since("2024-09-01", "2024-08-30"), Some(-2));
    assert_eq!(days_since("2024-09-01", "2024-09-01"), Some(0));
    assert_eq!(days_since("juicing", "2024-09-01"), None);
    assert_eq!(days_since("2024-09-01", "2024-09-31"), None);
}

#[test]
fn point_tooltips() {
    assert_eq!(point_tooltip("2024-09-11", 10, "1.050", some("racked")), "2024-09-11 (day 10): 1.050 — racked");
    assert_eq!(point_tooltip("2024-12-01", 91, "8/10", None), "2024-12-01 (day 91): 8/10");
}
