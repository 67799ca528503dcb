use ciderhub::models::{empty_string_as_none, Season, Tree, Unit};
use ciderhub::seasons::season_rows;
use ciderhub::trees::tree_rows;
use ciderhub::units::{normalize_unit_name, unit_in_use, unit_options, unit_rows};

#[test]
fn blank_form_fields_are_absent() {
    assert_eq!(empty_string_as_none(None), None);
    assert_eq!(empty_string_as_none(Some(String::new())), None);
    assert_eq!(empty_string_as_none(Some(" \t ".to_string())), None);
    assert_eq!(empty_string_as_none(Some(" Cox ".to_string())), Some(" Cox ".to_string()));
}

#[test]
fn season_rows_open_the_edited_season() {
    let seasons = vec![Season { id: 2, year: 2025 }, Season { id: 1, year: 2024 }];
    let rows = season_rows(&seasons, Some(1));
    let seen: Vec<(i64, i64, bool)> = rows.iter().map(|r| (r.season.id, r.season.year, r.editing)).collect();
    assert_eq!(seen, vec![(2, 2025, false), (1, 2024, true)]);
    assert!(season_rows(&seasons, None).iter().all(|r| !r.editing));
}

#[test]
fn tree_rows_keep_every_field() {
    let trees = vec![Tree {
        id: 3,
        name: "Bramley".to_string(),
        variety: Some("cooking".to_string()),
        planted_on: None,
        location: Some("north wall".to_string()),
        notes: None,
    }];
    let rows = tree_rows(&trees, Some(3));
    assert_eq!(rows.len(), 1);
    assert!(rows[0].editing);
    assert_eq!(rows[0].tree.name, "Bramley");
    assert_eq!(rows[0].tree.variety.as_deref(), Some("cooking"));
    assert_eq!(rows[0].tree.planted_on, None);
    assert_eq!(rows[0].tree.location.as_deref(), Some("north wall"));
}

#[test]
fn unit_names_are_trimmed_and_lowercased() {
    assert_eq!(normalize_unit_name("  Sugar "), "sugar");
    assert_eq!(normalize_unit_name("G"), "g");
    assert_eq!(normalize_unit_name("Tsp\t"), "tsp");
    assert_eq!(normalize_unit_name("ÄPFEL"), "äpfel");
}

#[test]
fn a_unit_is_in_use_while_an_additive_uses_it() {
    assert!(!unit_in_use(0));
    assert!(unit_in_use(3));
    let units = vec![(Unit { id: 1, name: "g".to_string() }, 0), (Unit { id: 2, name: "ml".to_string() }, 2)];
    let rows = unit_rows(&units, Some(2));
    let seen: Vec<(i64, &str, bool, bool)> = rows.iter().map(|r| (r.unit.id, r.unit.name.as_str(), r.editing, r.in_use)).collect();
    assert_eq!(seen, vec![(1, "g", false, false), (2, "ml", true, true)]);
}

#[test]
fn unit_dropdown_preselects_the_event_unit() {
    let units = vec![Unit { id: 1, name: "g".to_string() }, Unit { id: 2, name: "ml".to_string() }];
    let options = unit_options(&units, Some(2));
    let seen: Vec<(i64, &str, bool)> = options.iter().map(|o| (o.id, o.name.as_str(), o.selected)).collect();
    assert_eq!(seen, vec![(1, "g", false), (2, "ml", true)]);
    assert!(unit_options(&units, None).iter().all(|o| !o.selected));
}
