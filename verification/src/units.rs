//! The units table, and the one spelling each unit is stored under.

use vstd::prelude::*;
use crate::models::{Unit, UnitOption};
use crate::text::{trim, trim_spec};

verus! {

/// What `str::to_lowercase` gives for a text.
pub uninterp spec fn lowercase_text(s: Seq<char>) -> Seq<char>;

/// `str::to_lowercase`: the text with every character replaced by its
/// Unicode lowercase mapping. Only that its result is this function of
/// its argument is claimed here; the mapping itself is std's.
#[verifier::external_body]
fn to_lowercase(s: &str) -> (r: String)
    ensures
        r@ == lowercase_text(s@),
{
    s.to_lowercase()
}

/// The stored spelling of a unit name: trimmed, then lowercased, so that
/// "Sugar " and "sugar" name the same unit.
pub open spec fn unit_name_spec(raw: Seq<char>) -> Seq<char> {
    lowercase_text(trim_spec(raw))
}

/// A unit name as it is stored and looked up.
pub fn normalize_unit_name(raw: &str) -> (name: String)
    ensures
        name@ == unit_name_spec(raw@),
{
    to_lowercase(trim(raw))
}

/// A unit is in use while some additive event is measured in it; such a
/// unit cannot be deleted.
pub fn unit_in_use(additive_count: i64) -> (r: bool)
    ensures
        r == (additive_count > 0),
{
    additive_count > 0
}

/// One unit of the units table: whether it is being edited in place, and
/// whether it is in use.
pub struct UnitRow {
    pub unit: Unit,
    pub editing: bool,
    pub in_use: bool,
}

/// The units table: each unit with the number of additive events measured
/// in it, in the order given, with the unit `editing_id` (if any) open
/// for editing.
pub fn unit_rows(units: &[(Unit, i64)], editing_id: Option<i64>) -> (rows: Vec<UnitRow>)
    ensures
        rows@.len() == units@.len(),
        forall|i: int|
            0 <= i < units@.len() ==> {
                let r = #[trigger] rows@[i];
                &&& r.unit.id == units@[i].0.id
                &&& r.unit.name@ == units@[i].0.name@
                &&& r.editing == (editing_id == Some(units@[i].0.id))
                &&& r.in_use == (units@[i].1 > 0)
            },
{
    let mut rows: Vec<UnitRow> = Vec::new();
    let mut i: usize = 0;
    while i < units.len()
        invariant
            0 <= i <= units@.len(),
            rows@.len() == i,
            forall|q: int|
                0 <= q < i ==> {
                    let r = #[trigger] rows@[q];
                    &&& r.unit.id == units@[q].0.id
                    &&& r.unit.name@ == units@[q].0.name@
                    &&& r.editing == (editing_id == Some(units@[q].0.id))
                    &&& r.in_use == (units@[q].1 > 0)
                },
        decreases units@.len() - i,
    {
        let (u, count) = (&units[i].0, units[i].1);
        let editing = match editing_id {
            Some(e) => e == u.id,
            None => false,
        };
        rows.push(UnitRow { unit: Unit { id: u.id, name: u.name.clone() }, editing, in_use: unit_in_use(count) });
        i = i + 1;
    }
    rows
}

/// The unit `<select>` of the additive forms: every unit in the order
/// given, the one with id `selected` (if any) preselected.
pub fn unit_options(units: &[Unit], selected: Option<i64>) -> (options: Vec<UnitOption>)
    ensures
        options@.len() == units@.len(),
        forall|i: int|
            0 <= i < units@.len() ==> {
                let o = #[trigger] options@[i];
                &&& o.id == units@[i].id
                &&& o.name@ == units@[i].name@
                &&& o.selected == (selected == Some(units@[i].id))
            },
{
    let mut options: Vec<UnitOption> = Vec::new();
    let mut i: usize = 0;
    while i < units.len()
        invariant
            0 <= i <= units@.len(),
            options@.len() == i,
            forall|q: int|
                0 <= q < i ==> {
                    let o = #[trigger] options@[q];
                    &&& o.id == units@[q].id
                    &&& o.name@ == units@[q].name@
                    &&& o.selected == (selected == Some(units@[q].id))
                },
        decreases units@.len() - i,
    {
        let u = &units[i];
        let is_selected = match selected {
            Some(s) => s == u.id,
            None => false,
        };
        options.push(UnitOption { id: u.id, name: u.name.clone(), selected: is_selected });
        i = i + 1;
    }
    options
}

} // verus!
