//! Plain data carried between the database layer, the verified logic and
//! the templates.

use vstd::prelude::*;
use crate::text::{is_blank, trim_spec};

verus! {

/// One batch's resolved phase boundaries for the Season overview
/// timeline, already reduced to ISO `YYYY-MM-DD` dates.
pub struct BatchTimelineRow {
    pub code: String,
    pub start: String,
    pub racking_at: Option<String>,
    pub bottling_at: Option<String>,
    pub failed_at: Option<String>,
    /// `failed_at`, else `bottling_at`, else today — where the bar ends.
    pub end: String,
}

/// One entry of a month `<select>`.
pub struct MonthOption {
    pub value: u32,
    pub label: &'static str,
    pub selected: bool,
}

/// One batch's checkbox in the dashboard's chart picker.
pub struct BatchOption {
    pub id: i64,
    pub code: String,
    pub checked: bool,
}

/// One metric's checkbox in the dashboard's chart picker.
pub struct MetricOption {
    pub slug: &'static str,
    pub label: &'static str,
    pub checked: bool,
}

/// One metric's rendered chart, ready to drop into the page — the SVG
/// markup (or an empty-state message) plus its own legend.
pub struct ChartSection {
    pub label: &'static str,
    pub svg: String,
}

/// One season in a season `<select>`.
pub struct SeasonOption {
    pub id: i64,
    pub year: i64,
    pub selected: bool,
}

/// A form field as submitted: absent, or present but blank (nothing but
/// white space), both read as `None`; any other text is kept as given.
pub fn empty_string_as_none(value: Option<String>) -> (r: Option<String>)
    ensures
        r == (match value {
            Some(s) => if trim_spec(s@).len() == 0 { None } else { Some(s) },
            None => None,
        }),
{
    match value {
        Some(s) => if is_blank(s.as_str()) { None } else { Some(s) },
        None => None,
    }
}

/// A harvest season, named by its year.
#[derive(Clone, Copy)]
pub struct Season {
    pub id: i64,
    pub year: i64,
}

/// The season add/edit form.
pub struct SeasonForm {
    pub year: i64,
}

/// A unit that additive amounts are measured in, by its normalized name.
pub struct Unit {
    pub id: i64,
    pub name: String,
}

/// The unit add/rename form.
pub struct UnitForm {
    pub name: String,
}

/// One entry of a unit `<select>`.
pub struct UnitOption {
    pub id: i64,
    pub name: String,
    pub selected: bool,
}

/// An apple tree of the orchard.
pub struct Tree {
    pub id: i64,
    pub name: String,
    pub variety: Option<String>,
    pub planted_on: Option<String>,
    pub location: Option<String>,
    pub notes: Option<String>,
}

/// The tree add/edit form; blank optional fields arrive as `None`.
pub struct TreeForm {
    pub name: String,
    pub variety: Option<String>,
    pub planted_on: Option<String>,
    pub location: Option<String>,
    pub notes: Option<String>,
}

/// The new-batch form.
pub struct NewBatchForm {
    pub season_id: i64,
    pub code: String,
    pub name: Option<String>,
}

/// The batch name/notes edit form.
pub struct UpdateBatchForm {
    pub name: Option<String>,
    pub notes: Option<String>,
}

/// The bottling event form.
pub struct AddBottlingForm {
    pub occurred_at: String,
    pub bottle_count: i64,
    pub bottle_size_ml: i64,
    pub carbonation_method: Option<String>,
    pub notes: Option<String>,
}

/// The failure event form.
pub struct AddFailureForm {
    pub occurred_at: String,
    pub notes: Option<String>,
}

/// The tasting event form.
pub struct AddTastingForm {
    pub occurred_at: String,
    pub score: i64,
    pub tasting_notes: Option<String>,
    pub notes: Option<String>,
}

} // verus!
