//! The seasons table.

use vstd::prelude::*;
use crate::models::Season;

verus! {

/// One season of the seasons table, and whether it is the one being
/// edited in place.
pub struct SeasonRow {
    pub season: Season,
    pub editing: bool,
}

/// The seasons table in the order given, with the season `editing_id`
/// (if any) open for editing.
pub fn season_rows(seasons: &[Season], editing_id: Option<i64>) -> (rows: Vec<SeasonRow>)
    ensures
        rows@.len() == seasons@.len(),
        forall|i: int|
            0 <= i < seasons@.len() ==> #[trigger] rows@[i] == (SeasonRow {
                season: seasons@[i],
                editing: editing_id == Some(seasons@[i].id),
            }),
{
    let mut rows: Vec<SeasonRow> = Vec::new();
    let mut i: usize = 0;
    while i < seasons.len()
        invariant
            0 <= i <= seasons@.len(),
            rows@.len() == i,
            forall|q: int|
                0 <= q < i ==> #[trigger] rows@[q] == (SeasonRow {
                    season: seasons@[q],
                    editing: editing_id == Some(seasons@[q].id),
                }),
        decreases seasons@.len() - i,
    {
        let season = seasons[i];
        let editing = match editing_id {
            Some(e) => e == season.id,
            None => false,
        };
        rows.push(SeasonRow { season, editing });
        i = i + 1;
    }
    rows
}

} // verus!
