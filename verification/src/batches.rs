//! Batch rules that follow from the event log: the derived status, the
//! timeline's text and chronological order, and the juicing form's fields.

use vstd::prelude::*;
use crate::models::Tree;
use crate::numbers::{parse_u32, parse_u32_spec, NumberError};
use crate::text::{int_text, push_int, str_eq, trim, trim_spec};

verus! {

/// Whether any of the event types is one of `kinds`.
pub open spec fn has_event(types: Seq<String>, kind: Seq<char>) -> bool {
    exists|i: int| 0 <= i < types.len() && (#[trigger] types[i])@ == kind
}

/// Status is derived from which event types a batch has logged, most
/// advanced wins: failed, then bottled, then conditioning (racked), then
/// fermenting (juiced, dosed or measured), else planning.
pub open spec fn status_of(types: Seq<String>) -> Seq<char> {
    if has_event(types, "failed"@) {
        "failed"@
    } else if has_event(types, "bottling"@) {
        "bottled"@
    } else if has_event(types, "racking"@) {
        "conditioning"@
    } else if has_event(types, "juicing"@) || has_event(types, "additive"@) || has_event(
        types,
        "measurement"@,
    ) {
        "fermenting"@
    } else {
        "planning"@
    }
}

/// A status's place in a batch's life: planning, fermenting,
/// conditioning, bottled, and failed last.
pub open spec fn status_rank(status: Seq<char>) -> int {
    if status == "failed"@ {
        4
    } else if status == "bottled"@ {
        3
    } else if status == "conditioning"@ {
        2
    } else if status == "fermenting"@ {
        1
    } else {
        0
    }
}

proof fn lemma_has_event_grows(types: Seq<String>, more: Seq<String>, kind: Seq<char>)
    requires
        has_event(types, kind),
    ensures
        has_event(types + more, kind),
{
    let i = choose|i: int| 0 <= i < types.len() && (#[trigger] types[i])@ == kind;
    assert((types + more)[i] == types[i]);
}

/// Logging more events never moves a batch's status back: the status of
/// the longer log is at least as far along as that of the shorter one.
pub proof fn law_status_never_moves_back(types: Seq<String>, more: Seq<String>)
    ensures
        status_rank(status_of(types)) <= status_rank(status_of(types + more)),
{
    reveal_strlit("failed");
    reveal_strlit("bottled");
    reveal_strlit("conditioning");
    reveal_strlit("fermenting");
    reveal_strlit("planning");
    if has_event(types, "failed"@) {
        lemma_has_event_grows(types, more, "failed"@);
    }
    if has_event(types, "bottling"@) {
        lemma_has_event_grows(types, more, "bottling"@);
    }
    if has_event(types, "racking"@) {
        lemma_has_event_grows(types, more, "racking"@);
    }
    if has_event(types, "juicing"@) {
        lemma_has_event_grows(types, more, "juicing"@);
    }
    if has_event(types, "additive"@) {
        lemma_has_event_grows(types, more, "additive"@);
    }
    if has_event(types, "measurement"@) {
        lemma_has_event_grows(types, more, "measurement"@);
    }
    assert("failed"@.len() == 6 && "bottled"@.len() == 7 && "planning"@.len() == 8);
    assert("fermenting"@.len() == 10 && "conditioning"@.len() == 12);
    assert(status_rank("failed"@) == 4);
    assert(status_rank("bottled"@) == 3);
    assert(status_rank("conditioning"@) == 2);
    assert(status_rank("fermenting"@) == 1);
    assert(status_rank("planning"@) == 0);
}

/// The status depends only on which event types were logged, not on
/// their order or how often each one was: two logs with the same set of
/// types have the same status.
pub proof fn law_status_depends_only_on_logged_types(a: Seq<String>, b: Seq<String>)
    requires
        a.map_values(|t: String| t@).to_set() == b.map_values(|t: String| t@).to_set(),
    ensures
        status_of(a) == status_of(b),
{
    assert forall|k: Seq<char>| has_event(a, k) <==> has_event(b, k) by {
        let av = a.map_values(|t: String| t@);
        let bv = b.map_values(|t: String| t@);
        if has_event(a, k) {
            let i = choose|i: int| 0 <= i < a.len() && (#[trigger] a[i])@ == k;
            assert(av[i] == k);
            assert(av.to_set().contains(k));
            assert(bv.contains(k));
            let j = choose|j: int| 0 <= j < bv.len() && bv[j] == k;
            assert(b[j]@ == k);
        }
        if has_event(b, k) {
            let i = choose|i: int| 0 <= i < b.len() && (#[trigger] b[i])@ == k;
            assert(bv[i] == k);
            assert(bv.to_set().contains(k));
            assert(av.contains(k));
            let j = choose|j: int| 0 <= j < av.len() && av[j] == k;
            assert(a[j]@ == k);
        }
    }
}

proof fn lemma_status_words_differ()
    ensures
        "fermenting"@ != "planning"@,
        "measurement"@ != "failed"@,
        "measurement"@ != "bottling"@,
        "measurement"@ != "racking"@,
{
    reveal_strlit("fermenting");
    reveal_strlit("planning");
    reveal_strlit("measurement");
    reveal_strlit("failed");
    reveal_strlit("bottling");
    reveal_strlit("racking");
    assert("fermenting"@.len() != "planning"@.len());
    assert("measurement"@.len() != "failed"@.len());
    assert("measurement"@.len() != "bottling"@.len());
    assert("measurement"@.len() != "racking"@.len());
}

/// Before a batch is racked, bottled or failed, it is fermenting exactly
/// when it has a juicing, an additive or a measurement logged, and in
/// planning otherwise.
pub proof fn law_fermenting_until_racked(types: Seq<String>)
    requires
        !has_event(types, "failed"@),
        !has_event(types, "bottling"@),
        !has_event(types, "racking"@),
    ensures
        status_of(types) == "fermenting"@ <==> (has_event(types, "juicing"@) || has_event(types, "additive"@)
            || has_event(types, "measurement"@)),
        !(has_event(types, "juicing"@) || has_event(types, "additive"@) || has_event(types, "measurement"@))
            ==> status_of(types) == "planning"@,
{
    lemma_status_words_differ();
}

/// Logging a measurement on a batch that is not yet racked, bottled or
/// failed makes it fermenting, whatever else it has logged.
pub proof fn law_a_measurement_means_fermenting(types: Seq<String>, m: String)
    requires
        m@ == "measurement"@,
        !has_event(types, "failed"@),
        !has_event(types, "bottling"@),
        !has_event(types, "racking"@),
    ensures
        status_of(types.push(m)) == "fermenting"@,
{
    lemma_status_words_differ();
    let t = types.push(m);
    assert(t[types.len() as int] == m);
    assert(has_event(t, "measurement"@));
    assert forall|k: Seq<char>| k != "measurement"@ && has_event(t, k) implies has_event(types, k) by {
        let i = choose|i: int| 0 <= i < t.len() && (#[trigger] t[i])@ == k;
        assert(i < types.len());
        assert(types[i] == t[i]);
    }
    assert(!has_event(t, "failed"@));
    assert(!has_event(t, "bottling"@));
    assert(!has_event(t, "racking"@));
}

/// The batch's status, computed from the types of the events it has
/// logged — there is no stored status to drift out of sync with them.
pub fn compute_status(event_types: &[String]) -> (status: &'static str)
    ensures
        status@ == status_of(event_types@),
{
    let mut has_fermenting_signal = false;
    let mut has_racking = false;
    let mut has_bottling = false;
    let mut has_failed = false;
    let mut i: usize = 0;
    while i < event_types.len()
        invariant
            0 <= i <= event_types@.len(),
            has_failed == has_event(event_types@.take(i as int), "failed"@),
            has_bottling == has_event(event_types@.take(i as int), "bottling"@),
            has_racking == has_event(event_types@.take(i as int), "racking"@),
            has_fermenting_signal == (has_event(event_types@.take(i as int), "juicing"@) || has_event(
                event_types@.take(i as int),
                "additive"@,
            ) || has_event(event_types@.take(i as int), "measurement"@)),
        decreases event_types@.len() - i,
    {
        let t = event_types[i].as_str();
        let ghost prefix = event_types@.take(i as int);
        let ghost next = event_types@.take(i + 1);
        proof {
            assert(next[i as int] == event_types@[i as int]);
            assert forall|kind: Seq<char>| has_event(next, kind) == (has_event(prefix, kind) || t@ == kind) by {
                if has_event(next, kind) {
                    let q = choose|q: int| 0 <= q < next.len() && (#[trigger] next[q])@ == kind;
                    if q < i {
                        assert(prefix[q] == next[q]);
                    }
                }
                if has_event(prefix, kind) {
                    let q = choose|q: int| 0 <= q < prefix.len() && (#[trigger] prefix[q])@ == kind;
                    assert(next[q] == prefix[q]);
                }
            }
        }
        if str_eq(t, "juicing") || str_eq(t, "additive") || str_eq(t, "measurement") {
            has_fermenting_signal = true;
        }
        if str_eq(t, "racking") {
            has_racking = true;
        }
        if str_eq(t, "bottling") {
            has_bottling = true;
        }
        if str_eq(t, "failed") {
            has_failed = true;
        }
        i = i + 1;
    }
    assert(event_types@.take(event_types@.len() as int) =~= event_types@);
    if has_failed {
        "failed"
    } else if has_bottling {
        "bottled"
    } else if has_racking {
        "conditioning"
    } else if has_fermenting_signal {
        "fermenting"
    } else {
        "planning"
    }
}

/// A batch's header on its detail page, its status derived from the
/// event types it has logged.
pub struct BatchDetail {
    pub id: i64,
    pub code: String,
    pub name: Option<String>,
    pub status: &'static str,
    pub season_year: i64,
    pub notes: Option<String>,
    /// The date of the batch's first event; `None` before it has any.
    pub started_on: Option<String>,
}

impl BatchDetail {
    /// The header of a batch with the given stored fields and the event
    /// types logged for it.
    pub fn new(
        id: i64,
        code: String,
        name: Option<String>,
        season_year: i64,
        notes: Option<String>,
        started_on: Option<String>,
        event_types: &[String],
    ) -> (d: BatchDetail)
        ensures
            d.id == id,
            d.code == code,
            d.name == name,
            d.season_year == season_year,
            d.notes == notes,
            d.started_on == started_on,
            d.status@ == status_of(event_types@),
    {
        BatchDetail { id, code, name, status: compute_status(event_types), season_year, notes, started_on }
    }
}

/// A summary with the event's note appended after a dash, when it has a
/// non-empty one.
pub open spec fn with_notes_text(summary: Seq<char>, notes: Option<String>) -> Seq<char> {
    match notes {
        Some(n) => if n@.len() != 0 { summary + " — "@ + n@ } else { summary },
        None => summary,
    }
}

/// Appends ` — {notes}` to a timeline summary when the event has a
/// non-empty note.
pub fn with_notes(summary: String, notes: Option<String>) -> (r: String)
    ensures
        r@ == with_notes_text(summary@, notes),
{
    let mut summary = summary;
    match notes {
        Some(n) => {
            if n.as_str().unicode_len() != 0 {
                summary.append(" — ");
                summary.append(n.as_str());
            }
        },
        None => {},
    }
    summary
}

pub open spec fn bottling_summary_text(
    bottle_count: int,
    bottle_size_ml: int,
    carbonation_method: Option<String>,
    notes: Option<String>,
) -> Seq<char> {
    let base = int_text(bottle_count) + " × "@ + int_text(bottle_size_ml) + " ml bottles"@;
    let with_method = match carbonation_method {
        Some(m) => if m@.len() != 0 { base + " ("@ + m@ + ")"@ } else { base },
        None => base,
    };
    with_notes_text(with_method, notes)
}

/// The timeline summary of a bottling event: `{count} × {size} ml bottles`,
/// the carbonation method in parentheses when given, then the note.
pub fn bottling_summary(
    bottle_count: i64,
    bottle_size_ml: i64,
    carbonation_method: Option<String>,
    notes: Option<String>,
) -> (r: String)
    ensures
        r@ == bottling_summary_text(bottle_count as int, bottle_size_ml as int, carbonation_method, notes),
{
    let mut s = String::new();
    push_int(&mut s, bottle_count as i128);
    s.append(" × ");
    push_int(&mut s, bottle_size_ml as i128);
    s.append(" ml bottles");
    match carbonation_method {
        Some(m) => {
            if m.as_str().unicode_len() != 0 {
                s.append(" (");
                s.append(m.as_str());
                s.append(")");
            }
        },
        None => {},
    }
    let ghost before_notes = s@;
    assert(before_notes =~= match carbonation_method {
        Some(m) => if m@.len() != 0 {
            int_text(bottle_count as int) + " × "@ + int_text(bottle_size_ml as int) + " ml bottles"@
                + " ("@ + m@ + ")"@
        } else {
            int_text(bottle_count as int) + " × "@ + int_text(bottle_size_ml as int) + " ml bottles"@
        },
        None => int_text(bottle_count as int) + " × "@ + int_text(bottle_size_ml as int)
            + " ml bottles"@,
    });
    with_notes(s, notes)
}

/// `parts` joined with `sep` between them.
pub open spec fn joined(parts: Seq<Seq<char>>, sep: Seq<char>) -> Seq<char>
    decreases parts.len(),
{
    if parts.len() == 0 {
        seq![]
    } else if parts.len() == 1 {
        parts[0]
    } else {
        joined(parts.drop_last(), sep) + sep + parts.last()
    }
}

/// Joins texts with a separator, like `[String]::join`.
pub fn join(parts: &[String], sep: &str) -> (r: String)
    ensures
        r@ == joined(parts@.map_values(|p: String| p@), sep@),
{
    let ghost views = parts@.map_values(|p: String| p@);
    let mut out = String::new();
    let mut i: usize = 0;
    assert(views.take(0) =~= seq![]);
    while i < parts.len()
        invariant
            0 <= i <= parts@.len(),
            views == parts@.map_values(|p: String| p@),
            out@ == joined(views.take(i as int), sep@),
        decreases parts@.len() - i,
    {
        assert(views.take(i + 1).drop_last() =~= views.take(i as int));
        assert(views.take(i + 1).last() == parts@[i as int]@);
        if i > 0 {
            out.append(sep);
        } else {
            assert(views.take(1) =~= seq![parts@[0]@]);
        }
        out.append(parts[i].as_str());
        i = i + 1;
    }
    assert(views.take(views.len() as int) =~= views);
    out
}

/// A text that is present and not empty.
pub open spec fn filled(t: Option<String>) -> bool {
    t matches Some(x) && x@.len() != 0
}

/// One tree's part of a juicing summary: its name, with its share of the
/// pressing and the liters that share makes when a percentage is on
/// record.
pub open spec fn tree_part_text(tree: (String, Option<(String, String)>)) -> Seq<char> {
    match tree.1 {
        Some((pct, liters)) => tree.0@ + " ("@ + pct@ + "%, "@ + liters@ + " L)"@,
        None => tree.0@,
    }
}

/// The timeline summary of a juicing event, from its already-formatted
/// numbers: `Pressed from {trees} to {volume} L via {equipment}`, each
/// part only when there is something to say, then the note.
pub open spec fn juicing_summary_text(
    trees: Seq<(String, Option<(String, String)>)>,
    volume: Seq<char>,
    equipment: Option<String>,
    notes: Option<String>,
) -> Seq<char> {
    let trees_note = if trees.len() == 0 {
        seq![]
    } else {
        " from "@ + joined(trees.map_values(|t: (String, Option<(String, String)>)| tree_part_text(t)), ", "@)
    };
    let equipment_note = if filled(equipment) { " via "@ + equipment.unwrap()@ } else { seq![] };
    with_notes_text("Pressed"@ + trees_note + " to "@ + volume + " L"@ + equipment_note, notes)
}

/// Builds a juicing event's summary; `trees` are (name, (percentage,
/// liters)) with the percentage already written with no decimals and the
/// liters (the output volume times the percentage over 100) with one,
/// `volume` likewise with one.
pub fn juicing_summary(
    trees: &[(String, Option<(String, String)>)],
    volume: &str,
    equipment: Option<String>,
    notes: Option<String>,
) -> (r: String)
    ensures
        r@ == juicing_summary_text(trees@, volume@, equipment, notes),
{
    let ghost tv = trees@.map_values(|t: (String, Option<(String, String)>)| tree_part_text(t));
    let mut parts: Vec<String> = Vec::new();
    let mut i: usize = 0;
    while i < trees.len()
        invariant
            0 <= i <= trees@.len(),
            tv == trees@.map_values(|t: (String, Option<(String, String)>)| tree_part_text(t)),
            parts@.map_values(|p: String| p@) == tv.take(i as int),
        decreases trees@.len() - i,
    {
        let (name, share) = (&trees[i].0, &trees[i].1);
        let mut part = name.clone();
        match share {
            Some((pct, liters)) => {
                part.append(" (");
                part.append(pct.as_str());
                part.append("%, ");
                part.append(liters.as_str());
                part.append(" L)");
            },
            None => {},
        }
        let ghost before = parts@.map_values(|p: String| p@);
        parts.push(part);
        assert(parts@.map_values(|p: String| p@) =~= before.push(part@));
        assert(tv.take(i + 1) =~= tv.take(i as int).push(tv[i as int]));
        i = i + 1;
    }
    assert(tv.take(tv.len() as int) =~= tv);
    let mut s = String::from_str("Pressed");
    if trees.len() > 0 {
        s.append(" from ");
        let listed = join(parts.as_slice(), ", ");
        s.append(listed.as_str());
    }
    s.append(" to ");
    s.append(volume);
    s.append(" L");
    match &equipment {
        Some(eq) => {
            if eq.as_str().unicode_len() != 0 {
                s.append(" via ");
                s.append(eq.as_str());
            }
        },
        None => {},
    }
    let ghost body = s@;
    proof {
        let trees_note = if trees@.len() == 0 {
            seq![]
        } else {
            " from "@ + joined(tv, ", "@)
        };
        let equipment_note = if filled(equipment) { " via "@ + equipment.unwrap()@ } else { seq![] };
        assert(body =~= "Pressed"@ + trees_note + " to "@ + volume@ + " L"@ + equipment_note);
    }
    with_notes(s, notes)
}

/// The timeline summary of an additive event: `{amount} {unit}
/// {substance}`, the amount already written as a number, then the note.
pub open spec fn additive_summary_text(
    amount: Seq<char>,
    unit: Seq<char>,
    substance: Seq<char>,
    notes: Option<String>,
) -> Seq<char> {
    with_notes_text(amount + " "@ + unit + " "@ + substance, notes)
}

/// Builds an additive event's summary.
pub fn additive_summary(amount: &str, unit: &str, substance: &str, notes: Option<String>) -> (r: String)
    ensures
        r@ == additive_summary_text(amount@, unit@, substance@, notes),
{
    let mut s = String::from_str(amount);
    s.append(" ");
    s.append(unit);
    s.append(" ");
    s.append(substance);
    assert(s@ =~= amount@ + " "@ + unit@ + " "@ + substance@);
    with_notes(s, notes)
}

/// The readings of a measurement event, each already formatted: `SG
/// {sg}`, `pH {ph}`, `{temp}°C`, `{volume} L` and the tasting notes, in
/// that order and only those present.
pub open spec fn measurement_parts(
    sg: Option<String>,
    ph: Option<String>,
    temperature: Option<String>,
    volume: Option<String>,
    tasting_notes: Option<String>,
) -> Seq<Seq<char>> {
    let a: Seq<Seq<char>> = match sg {
        Some(v) => seq!["SG "@ + v@],
        None => seq![],
    };
    let b: Seq<Seq<char>> = match ph {
        Some(v) => seq!["pH "@ + v@],
        None => seq![],
    };
    let c: Seq<Seq<char>> = match temperature {
        Some(v) => seq![v@ + "°C"@],
        None => seq![],
    };
    let d: Seq<Seq<char>> = match volume {
        Some(v) => seq![v@ + " L"@],
        None => seq![],
    };
    let e: Seq<Seq<char>> = if filled(tasting_notes) { seq![tasting_notes.unwrap()@] } else { seq![] };
    a + b + c + d + e
}

/// The timeline summary of a measurement event: its readings joined by
/// commas, or `measurement logged` when it has none, then the note.
pub open spec fn measurement_summary_text(
    sg: Option<String>,
    ph: Option<String>,
    temperature: Option<String>,
    volume: Option<String>,
    tasting_notes: Option<String>,
    notes: Option<String>,
) -> Seq<char> {
    let parts = measurement_parts(sg, ph, temperature, volume, tasting_notes);
    with_notes_text(
        if parts.len() == 0 { "measurement logged"@ } else { joined(parts, ", "@) },
        notes,
    )
}

fn push_part(parts: &mut Vec<String>, prefix: &str, value: &Option<String>, suffix: &str)
    ensures
        final(parts)@.map_values(|p: String| p@) == old(parts)@.map_values(|p: String| p@) + match *value {
            Some(v) => seq![prefix@ + v@ + suffix@],
            None => Seq::<Seq<char>>::empty(),
        },
{
    match value {
        Some(v) => {
            let mut part = String::from_str(prefix);
            part.append(v.as_str());
            part.append(suffix);
            parts.push(part);
            assert(final(parts)@.map_values(|p: String| p@) =~= old(parts)@.map_values(|p: String| p@) + seq![
                prefix@ + v@ + suffix@,
            ]);
        },
        None => {
            assert(final(parts)@.map_values(|p: String| p@) =~= old(parts)@.map_values(|p: String| p@) + Seq::<
                Seq<char>,
            >::empty());
        },
    }
}

/// Builds a measurement event's summary from its readings, each already
/// written with its precision (three decimals for gravity, two for pH,
/// one for temperature and volume).
pub fn measurement_summary(
    sg: Option<String>,
    ph: Option<String>,
    temperature: Option<String>,
    volume: Option<String>,
    tasting_notes: Option<String>,
    notes: Option<String>,
) -> (r: String)
    ensures
        r@ == measurement_summary_text(sg, ph, temperature, volume, tasting_notes, notes),
{
    let mut parts: Vec<String> = Vec::new();
    proof {
        reveal_strlit("");
    }
    push_part(&mut parts, "SG ", &sg, "");
    push_part(&mut parts, "pH ", &ph, "");
    push_part(&mut parts, "", &temperature, "°C");
    push_part(&mut parts, "", &volume, " L");
    let tasting: Option<String> = match &tasting_notes {
        Some(t) => if t.as_str().unicode_len() != 0 { Some(t.clone()) } else { None },
        None => None,
    };
    push_part(&mut parts, "", &tasting, "");
    proof {
        let want = measurement_parts(sg, ph, temperature, volume, tasting_notes);
        assert(parts@.map_values(|p: String| p@) =~= want) by {
            let a: Seq<Seq<char>> = match sg {
                Some(v) => seq!["SG "@ + v@],
                None => seq![],
            };
            let b: Seq<Seq<char>> = match ph {
                Some(v) => seq!["pH "@ + v@],
                None => seq![],
            };
            let c: Seq<Seq<char>> = match temperature {
                Some(v) => seq![v@ + "°C"@],
                None => seq![],
            };
            let d: Seq<Seq<char>> = match volume {
                Some(v) => seq![v@ + " L"@],
                None => seq![],
            };
            let e: Seq<Seq<char>> = if filled(tasting_notes) { seq![tasting_notes.unwrap()@] } else { seq![] };
            match sg { Some(v) => { assert("SG "@ + v@ + ""@ =~= "SG "@ + v@); }, None => {} }
            match ph { Some(v) => { assert("pH "@ + v@ + ""@ =~= "pH "@ + v@); }, None => {} }
            match temperature { Some(v) => { assert(""@ + v@ + "°C"@ =~= v@ + "°C"@); }, None => {} }
            match volume { Some(v) => { assert(""@ + v@ + " L"@ =~= v@ + " L"@); }, None => {} }
            match tasting { Some(v) => { assert(""@ + v@ + ""@ =~= v@); }, None => {} }
            assert(want == a + b + c + d + e);
        }
    }
    let body = if parts.len() == 0 {
        String::from_str("measurement logged")
    } else {
        join(parts.as_slice(), ", ")
    };
    with_notes(body, notes)
}

/// The timeline summary of a racking event: `Racked {volume} L`, the loss
/// in parentheses when there was one, then the note; the numbers already
/// written to one decimal.
pub open spec fn racking_summary_text(volume: Seq<char>, loss: Option<String>, notes: Option<String>) -> Seq<
    char,
> {
    let base = "Racked "@ + volume + " L"@;
    let with_loss = match loss {
        Some(l) => base + " (lost "@ + l@ + " L)"@,
        None => base,
    };
    with_notes_text(with_loss, notes)
}

/// Builds a racking event's summary.
pub fn racking_summary(volume: &str, loss: Option<String>, notes: Option<String>) -> (r: String)
    ensures
        r@ == racking_summary_text(volume@, loss, notes),
{
    let mut s = String::from_str("Racked ");
    s.append(volume);
    s.append(" L");
    match &loss {
        Some(l) => {
            s.append(" (lost ");
            s.append(l.as_str());
            s.append(" L)");
        },
        None => {},
    }
    proof {
        let base = "Racked "@ + volume@ + " L"@;
        let with_loss = match loss {
            Some(l) => base + " (lost "@ + l@ + " L)"@,
            None => base,
        };
        assert(s@ =~= with_loss);
    }
    with_notes(s, notes)
}

/// A single row already formatted for display in a batch's timeline.
pub struct TimelineRow {
    pub event_id: i64,
    pub occurred_at: String,
    pub kind_label: &'static str,
    /// Lowercase, matches the `{kind}` path segment used to edit this event.
    pub kind_slug: &'static str,
    pub summary: String,
}

/// `a` sorts before or together with `b`: character by character, like
/// `String`'s ordering (UTF-8 byte order is code point order). ISO dates
/// compare in chronological order this way.
pub open spec fn text_le(a: Seq<char>, b: Seq<char>) -> bool
    decreases a.len(),
{
    if a.len() == 0 {
        true
    } else if b.len() == 0 {
        false
    } else if (a[0] as int) < (b[0] as int) {
        true
    } else if (a[0] as int) > (b[0] as int) {
        false
    } else {
        text_le(a.drop_first(), b.drop_first())
    }
}

/// Compares two texts by that ordering.
pub fn str_le(a: &str, b: &str) -> (r: bool)
    ensures
        r == text_le(a@, b@),
{
    let n = a.unicode_len();
    let m = b.unicode_len();
    let mut i: usize = 0;
    assert(a@.skip(0) =~= a@);
    assert(b@.skip(0) =~= b@);
    while i < n && i < m
        invariant
            n == a@.len(),
            m == b@.len(),
            0 <= i <= n,
            i <= m,
            forall|q: int| 0 <= q < i ==> a@[q] == b@[q],
            text_le(a@, b@) == text_le(a@.skip(i as int), b@.skip(i as int)),
        decreases n - i,
    {
        let ca = a.get_char(i);
        let cb = b.get_char(i);
        assert(a@.skip(i as int)[0] == ca);
        assert(b@.skip(i as int)[0] == cb);
        if (ca as u32) < (cb as u32) {
            return true;
        }
        if (ca as u32) > (cb as u32) {
            return false;
        }
        assert(a@.skip(i as int).drop_first() =~= a@.skip(i + 1));
        assert(b@.skip(i as int).drop_first() =~= b@.skip(i + 1));
        i = i + 1;
    }
    assert(a@.skip(i as int).len() == n - i);
    assert(b@.skip(i as int).len() == m - i);
    i == n
}

pub open spec fn row_le(a: TimelineRow, b: TimelineRow) -> bool {
    text_le(a.occurred_at@, b.occurred_at@)
}

/// Index of the first row of `t` from `i` on that sorts strictly after
/// `x` (the length of `t` when there is none).
pub open spec fn first_after(t: Seq<TimelineRow>, x: TimelineRow, i: int) -> int
    decreases t.len() - i,
{
    if i >= t.len() {
        t.len() as int
    } else if row_le(t[i], x) {
        first_after(t, x, i + 1)
    } else {
        i
    }
}

/// The rows ordered by date, rows with the same date keeping their
/// relative order as given (a stable sort, as `sort_by` is).
pub open spec fn sorted_by_date(rows: Seq<TimelineRow>) -> Seq<TimelineRow>
    decreases rows.len(),
{
    if rows.len() == 0 {
        seq![]
    } else {
        let t = sorted_by_date(rows.drop_last());
        t.insert(first_after(t, rows.last(), 0), rows.last())
    }
}

proof fn lemma_first_after_bounds(t: Seq<TimelineRow>, x: TimelineRow, i: int)
    requires
        0 <= i <= t.len(),
    ensures
        i <= first_after(t, x, i) <= t.len(),
    decreases t.len() - i,
{
    if i < t.len() && row_le(t[i], x) {
        lemma_first_after_bounds(t, x, i + 1);
    }
}

proof fn lemma_sorted_len(rows: Seq<TimelineRow>)
    ensures
        sorted_by_date(rows).len() == rows.len(),
    decreases rows.len(),
{
    if rows.len() > 0 {
        lemma_sorted_len(rows.drop_last());
        lemma_first_after_bounds(sorted_by_date(rows.drop_last()), rows.last(), 0);
    }
}

/// Orders a batch's timeline rows by date, oldest first; rows on the same
/// date keep the order they were given in.
pub fn sort_timeline(rows: &mut Vec<TimelineRow>)
    ensures
        final(rows)@ == sorted_by_date(old(rows)@),
{
    let ghost orig = rows@;
    let mut sorted: Vec<TimelineRow> = Vec::new();
    let ghost mut k: int = 0;
    while rows.len() > 0
        invariant
            0 <= k <= orig.len(),
            rows@ == orig.skip(k),
            sorted@ == sorted_by_date(orig.take(k)),
        decreases rows@.len(),
    {
        let x = rows.remove(0);
        proof {
            assert(x == orig[k]);
            assert(orig.take(k + 1).drop_last() =~= orig.take(k));
            assert(orig.take(k + 1).last() == orig[k]);
            lemma_sorted_len(orig.take(k));
            lemma_first_after_bounds(sorted@, x, 0);
        }
        let mut p: usize = 0;
        while p < sorted.len() && str_le(sorted[p].occurred_at.as_str(), x.occurred_at.as_str())
            invariant
                0 <= p <= sorted@.len(),
                first_after(sorted@, x, 0) == first_after(sorted@, x, p as int),
            decreases sorted@.len() - p,
        {
            p = p + 1;
        }
        sorted.insert(p, x);
        proof {
            assert(orig.skip(k).drop_first() =~= orig.skip(k + 1));
            k = k + 1;
        }
    }
    proof {
        assert(orig.take(k) =~= orig);
    }
    *rows = sorted;
}

pub proof fn lemma_text_le_refl(a: Seq<char>)
    ensures
        text_le(a, a),
    decreases a.len(),
{
    if a.len() > 0 {
        lemma_text_le_refl(a.drop_first());
    }
}

pub proof fn lemma_text_le_total(a: Seq<char>, b: Seq<char>)
    ensures
        text_le(a, b) || text_le(b, a),
    decreases a.len(),
{
    if a.len() > 0 && b.len() > 0 && a[0] == b[0] {
        lemma_text_le_total(a.drop_first(), b.drop_first());
    }
}

pub proof fn lemma_text_le_trans(a: Seq<char>, b: Seq<char>, c: Seq<char>)
    requires
        text_le(a, b),
        text_le(b, c),
    ensures
        text_le(a, c),
    decreases a.len(),
{
    if a.len() > 0 && b.len() > 0 && c.len() > 0 && a[0] == b[0] && b[0] == c[0] {
        lemma_text_le_trans(a.drop_first(), b.drop_first(), c.drop_first());
    }
}

proof fn lemma_first_after_split(t: Seq<TimelineRow>, x: TimelineRow, i: int)
    requires
        0 <= i <= t.len(),
    ensures
        forall|q: int| i <= q < first_after(t, x, i) ==> row_le(#[trigger] t[q], x),
        first_after(t, x, i) < t.len() ==> !row_le(t[first_after(t, x, i)], x),
    decreases t.len() - i,
{
    if i < t.len() && row_le(t[i], x) {
        lemma_first_after_split(t, x, i + 1);
    }
}

pub open spec fn rows_in_date_order(rows: Seq<TimelineRow>) -> bool {
    forall|i: int, j: int| 0 <= i < j < rows.len() ==> row_le(#[trigger] rows[i], #[trigger] rows[j])
}

/// A batch's sorted timeline is in date order and holds exactly the rows
/// it was given.
pub proof fn law_timeline_sort_orders_and_keeps_rows(rows: Seq<TimelineRow>)
    ensures
        rows_in_date_order(sorted_by_date(rows)),
        sorted_by_date(rows).to_multiset() == rows.to_multiset(),
    decreases rows.len(),
{
    broadcast use vstd::seq_lib::to_multiset_insert, vstd::seq_lib::to_multiset_build;

    if rows.len() == 0 {
        assert(sorted_by_date(rows) =~= seq![]);
        assert(rows =~= seq![]);
    } else {
        let init = rows.drop_last();
        let x = rows.last();
        law_timeline_sort_orders_and_keeps_rows(init);
        let t = sorted_by_date(init);
        lemma_first_after_bounds(t, x, 0);
        lemma_first_after_split(t, x, 0);
        let p = first_after(t, x, 0);
        let r = t.insert(p, x);
        assert(r == sorted_by_date(rows));
        assert(rows =~= init.push(x));
        if p < t.len() {
            lemma_text_le_total(t[p].occurred_at@, x.occurred_at@);
        }
        assert forall|i: int, j: int| 0 <= i < j < r.len() implies row_le(#[trigger] r[i], #[trigger] r[j]) by {
            if j < p {
                assert(r[i] == t[i] && r[j] == t[j]);
            } else if j == p {
                assert(r[i] == t[i] && r[j] == x);
            } else if i < p {
                assert(r[i] == t[i] && r[j] == t[j - 1]);
                assert(row_le(t[i], x));
                lemma_text_le_trans(t[i].occurred_at@, x.occurred_at@, t[p].occurred_at@);
                if j - 1 > p {
                    lemma_text_le_trans(t[i].occurred_at@, t[p].occurred_at@, t[j - 1].occurred_at@);
                }
            } else if i == p {
                assert(r[i] == x && r[j] == t[j - 1]);
                if j - 1 > p {
                    lemma_text_le_trans(x.occurred_at@, t[p].occurred_at@, t[j - 1].occurred_at@);
                }
            } else {
                assert(r[i] == t[i - 1] && r[j] == t[j - 1]);
            }
        }
    }
}

/// The event types of the batch `id`, in the order the events come.
pub open spec fn event_types_of(events: Seq<(i64, String)>, id: i64) -> Seq<String>
    decreases events.len(),
{
    if events.len() == 0 {
        seq![]
    } else if events.last().0 == id {
        event_types_of(events.drop_last(), id).push(events.last().1)
    } else {
        event_types_of(events.drop_last(), id)
    }
}

/// The status of each listed batch, from the event types logged for it
/// among `events` (batch id, event type) — one pass over all events
/// instead of one query per batch.
pub fn batch_statuses(batch_ids: &[i64], events: &[(i64, String)]) -> (statuses: Vec<&'static str>)
    ensures
        statuses@.len() == batch_ids@.len(),
        forall|i: int|
            0 <= i < batch_ids@.len() ==> (#[trigger] statuses@[i])@ == status_of(
                event_types_of(events@, batch_ids@[i]),
            ),
{
    let mut statuses: Vec<&'static str> = Vec::new();
    let mut i: usize = 0;
    while i < batch_ids.len()
        invariant
            0 <= i <= batch_ids@.len(),
            statuses@.len() == i,
            forall|q: int|
                0 <= q < i ==> (#[trigger] statuses@[q])@ == status_of(
                    event_types_of(events@, batch_ids@[q]),
                ),
        decreases batch_ids@.len() - i,
    {
        let id = batch_ids[i];
        let mut types: Vec<String> = Vec::new();
        let mut j: usize = 0;
        while j < events.len()
            invariant
                0 <= j <= events@.len(),
                types@ == event_types_of(events@.take(j as int), id),
            decreases events@.len() - j,
        {
            assert(events@.take(j + 1).drop_last() =~= events@.take(j as int));
            if events[j].0 == id {
                types.push(events[j].1.clone());
            }
            j = j + 1;
        }
        assert(events@.take(events@.len() as int) =~= events@);
        statuses.push(compute_status(types.as_slice()));
        i = i + 1;
    }
    statuses
}

/// One tree's part of a juicing form: whether its checkbox was ticked and
/// the percentage text typed next to it (`percentage_tree_{id}`).
pub struct TreeSelection {
    pub tree_id: i64,
    pub used: bool,
    pub percentage: Option<String>,
}

/// The raw fields of a juicing add/edit submission, absent when the form
/// did not send them.
pub struct JuicingFields {
    pub month: Option<String>,
    pub day: Option<String>,
    pub output_volume_l: Option<String>,
    pub equipment: Option<String>,
    pub notes: Option<String>,
    pub trees: Vec<TreeSelection>,
}

/// A juicing submission with its date fields read; the volume and the
/// ticked trees' percentages are trimmed, non-empty texts still to be
/// read as decimals.
pub struct JuicingSubmission {
    pub month: u32,
    pub day: u32,
    pub output_volume_l: String,
    pub equipment: Option<String>,
    pub notes: Option<String>,
    pub tree_percentages: Vec<(i64, String)>,
}

/// Why a juicing submission was refused.
pub enum JuicingError {
    /// A required field is absent or blank.
    Missing(&'static str),
    /// A required field is not a whole number.
    NotANumber(&'static str, NumberError),
    /// A ticked tree has no percentage: the field `percentage_tree_{id}`
    /// is absent or blank.
    MissingPercentage(i64),
}

/// A field as the form handler reads it: trimmed, and absent when blank.
pub open spec fn field_text(raw: Option<String>) -> Option<Seq<char>> {
    match raw {
        Some(t) => if trim_spec(t@).len() != 0 { Some(trim_spec(t@)) } else { None },
        None => None,
    }
}

fn optional_field(raw: &Option<String>) -> (r: Option<String>)
    ensures
        match r {
            Some(t) => field_text(*raw) == Some(t@),
            None => field_text(*raw) is None,
        },
{
    match raw {
        Some(t) => {
            let trimmed = trim(t.as_str());
            if trimmed.unicode_len() != 0 {
                Some(String::from_str(trimmed))
            } else {
                None
            }
        },
        None => None,
    }
}

/// The first ticked tree, in form order, whose percentage is absent or
/// blank.
pub open spec fn first_missing_percentage(trees: Seq<TreeSelection>) -> Option<i64>
    decreases trees.len(),
{
    if trees.len() == 0 {
        None
    } else {
        match first_missing_percentage(trees.drop_last()) {
            Some(id) => Some(id),
            None => if trees.last().used && field_text(trees.last().percentage) is None {
                Some(trees.last().tree_id)
            } else {
                None
            },
        }
    }
}

proof fn lemma_first_missing_prefix(trees: Seq<TreeSelection>, k: int)
    requires
        0 <= k <= trees.len(),
        first_missing_percentage(trees.take(k)) is Some,
    ensures
        first_missing_percentage(trees) == first_missing_percentage(trees.take(k)),
    decreases trees.len() - k,
{
    if k < trees.len() {
        assert(trees.take(k + 1).drop_last() =~= trees.take(k));
        lemma_first_missing_prefix(trees, k + 1);
    } else {
        assert(trees.take(k) =~= trees);
    }
}

/// The (tree, percentage text) pairs of the ticked trees, in form order.
pub open spec fn tree_percentages_spec(trees: Seq<TreeSelection>) -> Seq<(i64, Seq<char>)>
    decreases trees.len(),
{
    if trees.len() == 0 {
        seq![]
    } else if trees.last().used {
        tree_percentages_spec(trees.drop_last()).push(
            (trees.last().tree_id, field_text(trees.last().percentage).unwrap()),
        )
    } else {
        tree_percentages_spec(trees.drop_last())
    }
}

pub open spec fn percentage_view(w: (i64, String)) -> (i64, Seq<char>) {
    (w.0, w.1@)
}

/// What a juicing submission yields: the read fields, with one entry per
/// ticked tree in the given tree order.
pub open spec fn juicing_ok(fields: JuicingFields, sub: JuicingSubmission) -> bool {
    &&& field_text(fields.month) matches Some(m) && parse_u32_spec(m) == Ok::<int, NumberError>(sub.month as int)
    &&& field_text(fields.day) matches Some(d) && parse_u32_spec(d) == Ok::<int, NumberError>(sub.day as int)
    &&& field_text(fields.output_volume_l) == Some(sub.output_volume_l@)
    &&& field_text(fields.equipment) == (match sub.equipment { Some(t) => Some(t@), None => None })
    &&& field_text(fields.notes) == (match sub.notes { Some(t) => Some(t@), None => None })
    &&& sub.tree_percentages@.map_values(|w: (i64, String)| percentage_view(w)) == tree_percentages_spec(
        fields.trees@,
    )
}

/// The field key of a tree's percentage.
pub open spec fn percentage_key(id: i64) -> Seq<char> {
    "percentage_tree_"@ + int_text(id as int)
}

/// The first refusal of a juicing submission, as the key of the field at
/// fault and the number error when the field was there but not a whole
/// number: month, then day, then output volume, then the first ticked
/// tree without a percentage; `None` when nothing is missing.
pub open spec fn juicing_error(fields: JuicingFields) -> Option<(Seq<char>, Option<NumberError>)> {
    match field_text(fields.month) {
        None => Some(("month"@, None)),
        Some(m) => match parse_u32_spec(m) {
            Err(e) => Some(("month"@, Some(e))),
            Ok(_) => match field_text(fields.day) {
                None => Some(("day"@, None)),
                Some(d) => match parse_u32_spec(d) {
                    Err(e) => Some(("day"@, Some(e))),
                    Ok(_) => match field_text(fields.output_volume_l) {
                        None => Some(("output_volume_l"@, None)),
                        Some(_) => match first_missing_percentage(fields.trees@) {
                            Some(id) => Some((percentage_key(id), None)),
                            None => None,
                        },
                    },
                },
            },
        },
    }
}

pub open spec fn error_view(e: JuicingError) -> (Seq<char>, Option<NumberError>) {
    match e {
        JuicingError::Missing(f) => (f@, None),
        JuicingError::NotANumber(f, k) => (f@, Some(k)),
        JuicingError::MissingPercentage(id) => (percentage_key(id), None),
    }
}

/// Pulls the date fields, volume, equipment, notes and ticked trees out of
/// a juicing add/edit submission, refusing it on the first required field
/// (month, day, output volume, then each ticked tree's percentage) that
/// is blank or, for month and day, not a whole number. A submission with
/// no tree ticked needs no percentage.
pub fn parse_juicing_submission(fields: &JuicingFields) -> (r: Result<JuicingSubmission, JuicingError>)
    ensures
        match r {
            Ok(sub) => juicing_error(*fields) is None && juicing_ok(*fields, sub),
            Err(e) => juicing_error(*fields) == Some(error_view(e)),
        },
{
    let month_text = match optional_field(&fields.month) {
        Some(t) => t,
        None => return Err(JuicingError::Missing("month")),
    };
    let month = match parse_u32(month_text.as_str()) {
        Ok(v) => v,
        Err(e) => return Err(JuicingError::NotANumber("month", e)),
    };
    let day_text = match optional_field(&fields.day) {
        Some(t) => t,
        None => return Err(JuicingError::Missing("day")),
    };
    let day = match parse_u32(day_text.as_str()) {
        Ok(v) => v,
        Err(e) => return Err(JuicingError::NotANumber("day", e)),
    };
    let output_volume_l = match optional_field(&fields.output_volume_l) {
        Some(t) => t,
        None => return Err(JuicingError::Missing("output_volume_l")),
    };
    let equipment = optional_field(&fields.equipment);
    let notes = optional_field(&fields.notes);
    let mut tree_percentages: Vec<(i64, String)> = Vec::new();
    let mut i: usize = 0;
    assert(fields.trees@.take(0) =~= seq![]);
    while i < fields.trees.len()
        invariant
            0 <= i <= fields.trees@.len(),
            juicing_error(*fields) == match first_missing_percentage(fields.trees@) {
                Some(id) => Some((percentage_key(id), None::<NumberError>)),
                None => None,
            },
            field_text(fields.month) == Some(month_text@),
            parse_u32_spec(month_text@) == Ok::<int, NumberError>(month as int),
            field_text(fields.day) == Some(day_text@),
            parse_u32_spec(day_text@) == Ok::<int, NumberError>(day as int),
            field_text(fields.output_volume_l) == Some(output_volume_l@),
            field_text(fields.equipment) == (match equipment { Some(t) => Some(t@), None => None }),
            field_text(fields.notes) == (match notes { Some(t) => Some(t@), None => None }),
            first_missing_percentage(fields.trees@.take(i as int)) is None,
            tree_percentages@.map_values(|w: (i64, String)| percentage_view(w)) == tree_percentages_spec(
                fields.trees@.take(i as int),
            ),
        decreases fields.trees@.len() - i,
    {
        let tree = &fields.trees[i];
        assert(fields.trees@.take(i + 1).drop_last() =~= fields.trees@.take(i as int));
        assert(fields.trees@.take(i + 1).last() == fields.trees@[i as int]);
        if tree.used {
            match optional_field(&tree.percentage) {
                Some(p) => {
                    tree_percentages.push((tree.tree_id, p));
                },
                None => {
                    proof {
                        let pre = fields.trees@.take(i + 1);
                        assert(pre.last().used && field_text(pre.last().percentage) is None);
                        assert(first_missing_percentage(pre.drop_last()) is None);
                        assert(first_missing_percentage(pre) == Some(tree.tree_id));
                        lemma_first_missing_prefix(fields.trees@, i + 1);
                    }
                    return Err(JuicingError::MissingPercentage(tree.tree_id));
                },
            }
        }
        i = i + 1;
        assert(tree_percentages@.map_values(|w: (i64, String)| percentage_view(w)) =~= tree_percentages_spec(
            fields.trees@.take(i as int),
        ));
    }
    assert(fields.trees@.take(fields.trees@.len() as int) =~= fields.trees@);
    Ok(JuicingSubmission { month, day, output_volume_l, equipment, notes, tree_percentages })
}

pub open spec fn juicing_error_text(e: (Seq<char>, Option<NumberError>)) -> Seq<char> {
    match e.1 {
        None => "missing required field: "@ + e.0,
        Some(k) => crate::numbers::number_error_text(k),
    }
}

impl JuicingError {
    /// The message the form answers with: `missing required field: {key}`,
    /// or the integer parser's own message.
    pub fn message(&self) -> (s: String)
        ensures
            s@ == juicing_error_text(error_view(*self)),
    {
        match self {
            JuicingError::Missing(field) => {
                let mut s = String::from_str("missing required field: ");
                s.append(field);
                s
            },
            JuicingError::NotANumber(_, kind) => String::from_str(kind.message()),
            JuicingError::MissingPercentage(id) => {
                let mut s = String::from_str("missing required field: percentage_tree_");
                push_int(&mut s, *id as i128);
                proof {
                    reveal_strlit("missing required field: percentage_tree_");
                    reveal_strlit("missing required field: ");
                    reveal_strlit("percentage_tree_");
                }
                assert(s@ =~= "missing required field: "@ + percentage_key(*id));
                s
            },
        }
    }
}

/// One tree's checkbox and percentage in the juicing form; the
/// percentage is in whatever number type the caller keeps it in.
pub struct TreeChoice<W> {
    pub tree_id: i64,
    pub tree_name: String,
    pub checked: bool,
    pub percentage: Option<W>,
}

/// The percentage recorded for tree `id` among the (tree, percentage) pairs of an
/// event — the last pair for that tree wins — or `None` when the tree is
/// not part of the event.
pub open spec fn selected_percentage<W>(selected: Seq<(i64, Option<W>)>, id: i64) -> Option<Option<W>>
    decreases selected.len(),
{
    if selected.len() == 0 {
        None
    } else if selected.last().0 == id {
        Some(selected.last().1)
    } else {
        selected_percentage(selected.drop_last(), id)
    }
}

/// The tree checkbox list of the juicing form: every tree in the order
/// given, ticked with its percentage when it is part of the event
/// (`selected` holds its (tree, percentage) pairs), unticked with no
/// percentage otherwise.
pub fn build_tree_fields<W: Copy>(all_trees: &[Tree], selected: &[(i64, Option<W>)]) -> (fields: Vec<TreeChoice<W>>)
    ensures
        fields@.len() == all_trees@.len(),
        forall|i: int|
            0 <= i < all_trees@.len() ==> {
                let f = #[trigger] fields@[i];
                &&& f.tree_id == all_trees@[i].id
                &&& f.tree_name@ == all_trees@[i].name@
                &&& f.checked == selected_percentage(selected@, all_trees@[i].id) is Some
                &&& f.percentage == match selected_percentage(selected@, all_trees@[i].id) {
                    Some(w) => w,
                    None => None,
                }
            },
{
    let mut fields: Vec<TreeChoice<W>> = Vec::new();
    let mut i: usize = 0;
    while i < all_trees.len()
        invariant
            0 <= i <= all_trees@.len(),
            fields@.len() == i,
            forall|q: int|
                0 <= q < i ==> {
                    let f = #[trigger] fields@[q];
                    &&& f.tree_id == all_trees@[q].id
                    &&& f.tree_name@ == all_trees@[q].name@
                    &&& f.checked == selected_percentage(selected@, all_trees@[q].id) is Some
                    &&& f.percentage == match selected_percentage(selected@, all_trees@[q].id) {
                        Some(w) => w,
                        None => None,
                    }
                },
        decreases all_trees@.len() - i,
    {
        let id = all_trees[i].id;
        let mut k: usize = selected.len();
        let mut found: Option<Option<W>> = None;
        assert(selected@.take(k as int) =~= selected@);
        while k > 0 && found.is_none()
            invariant
                0 <= k <= selected@.len(),
                found is None ==> selected_percentage(selected@, id) == selected_percentage(selected@.take(k as int), id),
                found is Some ==> selected_percentage(selected@, id) == found,
            decreases k,
        {
            assert(selected@.take(k as int).drop_last() =~= selected@.take(k - 1));
            assert(selected@.take(k as int).last() == selected@[k - 1]);
            if selected[k - 1].0 == id {
                found = Some(selected[k - 1].1);
            }
            k = k - 1;
        }
        if found.is_none() {
            assert(selected@.take(k as int) =~= seq![]) by {
                assert(k == 0);
            }
        }
        let (checked, percentage) = match found {
            Some(w) => (true, w),
            None => (false, None),
        };
        fields.push(TreeChoice { tree_id: id, tree_name: all_trees[i].name.clone(), checked, percentage });
        i = i + 1;
    }
    fields
}

/// The timeline summary of a failure: its note, or `Batch marked as
/// failed` when it has none.
pub open spec fn failure_summary_text(notes: Option<String>) -> Seq<char> {
    if filled(notes) { notes.unwrap()@ } else { "Batch marked as failed"@ }
}

/// Builds a failure event's summary.
pub fn failure_summary(notes: Option<String>) -> (r: String)
    ensures
        r@ == failure_summary_text(notes),
{
    match notes {
        Some(n) => if n.as_str().unicode_len() != 0 {
            n
        } else {
            String::from_str("Batch marked as failed")
        },
        None => String::from_str("Batch marked as failed"),
    }
}

/// The timeline summary of a tasting: `Scored {score}/10`, the tasting
/// notes after a comma when there are any, then the note.
pub open spec fn tasting_summary_text(score: int, tasting_notes: Option<String>, notes: Option<String>) -> Seq<
    char,
> {
    let base = "Scored "@ + int_text(score) + "/10"@;
    let with_tasting = if filled(tasting_notes) { base + ", "@ + tasting_notes.unwrap()@ } else { base };
    with_notes_text(with_tasting, notes)
}

/// Builds a tasting event's summary.
pub fn tasting_summary(score: i64, tasting_notes: Option<String>, notes: Option<String>) -> (r: String)
    ensures
        r@ == tasting_summary_text(score as int, tasting_notes, notes),
{
    let mut s = String::from_str("Scored ");
    push_int(&mut s, score as i128);
    s.append("/10");
    match &tasting_notes {
        Some(t) => {
            if t.as_str().unicode_len() != 0 {
                s.append(", ");
                s.append(t.as_str());
            }
        },
        None => {},
    }
    proof {
        let base = "Scored "@ + int_text(score as int) + "/10"@;
        let with_tasting = if filled(tasting_notes) { base + ", "@ + tasting_notes.unwrap()@ } else { base };
        assert(s@ =~= with_tasting);
    }
    with_notes(s, notes)
}

/// The letters a season's batch codes run through.
pub open spec fn code_letters() -> Seq<char> {
    "ABCDEFGHIJKLMNOPQRSTUVWXYZ"@
}

/// The batch code `<year>-<letter>` with the `i`-th letter.
pub open spec fn season_code(year: int, i: int) -> Seq<char> {
    int_text(year) + "-"@ + seq![code_letters()[i]]
}

/// Whether some existing code is exactly `code`.
pub open spec fn code_taken(codes: Seq<String>, code: Seq<char>) -> bool {
    exists|k: int| 0 <= k < codes.len() && codes[k]@ == code
}

/// The first letter from the `i`-th on whose code is still free.
pub open spec fn first_free_letter(codes: Seq<String>, year: int, i: int) -> Option<int>
    decreases 26 - i,
{
    if i >= 26 || i < 0 {
        None
    } else if !code_taken(codes, season_code(year, i)) {
        Some(i)
    } else {
        first_free_letter(codes, year, i + 1)
    }
}

/// The code suggested for a new batch of the season of `year`, given the
/// codes its batches already have: `<year>-<first unused letter>`, or
/// none once `Z` is taken too. Codes of any other shape are ignored.
pub fn suggest_next_code(year: i64, codes: &[String]) -> (r: Option<String>)
    ensures
        r matches Some(c) ==> first_free_letter(codes@, year as int, 0) matches Some(i) && c@ == season_code(
            year as int,
            i,
        ),
        r is None ==> first_free_letter(codes@, year as int, 0) is None,
{
    let letters = "ABCDEFGHIJKLMNOPQRSTUVWXYZ";
    proof {
        reveal_strlit("ABCDEFGHIJKLMNOPQRSTUVWXYZ");
    }
    assert(letters@.len() == 26);
    let mut i: usize = 0;
    while i < 26
        invariant
            0 <= i <= 26,
            letters@ == code_letters(),
            letters@.len() == 26,
            first_free_letter(codes@, year as int, 0) == first_free_letter(codes@, year as int, i as int),
        decreases 26 - i,
    {
        let mut code = String::new();
        push_int(&mut code, year as i128);
        code.append("-");
        let letter = letters.substring_char(i, i + 1);
        proof {
            reveal_strlit("-");
            assert(letter@ =~= seq![code_letters()[i as int]]);
        }
        code.append(letter);
        assert(code@ =~= season_code(year as int, i as int));
        let mut taken = false;
        let mut k: usize = 0;
        while k < codes.len()
            invariant
                0 <= k <= codes@.len(),
                taken == exists|q: int| 0 <= q < k && codes@[q]@ == code@,
            decreases codes@.len() - k,
        {
            if str_eq(codes[k].as_str(), code.as_str()) {
                taken = true;
            }
            k = k + 1;
        }
        if !taken {
            return Some(code);
        }
        i = i + 1;
    }
    None
}

/// A text that may be absent, by its view.
pub open spec fn opt_text(t: Option<String>) -> Option<Seq<char>> {
    match t {
        Some(s) => Some(s@),
        None => None,
    }
}

/// The date of the first of `events` (batch id, event type, date) that
/// belongs to batch `id`.
pub open spec fn first_event_date(events: Seq<(i64, String, String)>, id: i64) -> Option<Seq<char>>
    decreases events.len(),
{
    if events.len() == 0 {
        None
    } else {
        match first_event_date(events.drop_last(), id) {
            Some(d) => Some(d),
            None => if events.last().0 == id {
                Some(events.last().2@)
            } else {
                None
            },
        }
    }
}

/// The date of the first of `events` that belongs to batch `id` and is of
/// type `kind`.
pub open spec fn first_kind_date(events: Seq<(i64, String, String)>, id: i64, kind: Seq<char>) -> Option<
    Seq<char>,
>
    decreases events.len(),
{
    if events.len() == 0 {
        None
    } else {
        match first_kind_date(events.drop_last(), id, kind) {
            Some(d) => Some(d),
            None => if events.last().0 == id && events.last().1@ == kind {
                Some(events.last().2@)
            } else {
                None
            },
        }
    }
}

/// The first dates in a batch's event log: of any event, and of its first
/// juicing, racking, bottling and failure.
pub struct EventDates {
    pub first: Option<String>,
    pub juicing: Option<String>,
    pub racking: Option<String>,
    pub bottling: Option<String>,
    pub failed: Option<String>,
}

/// Reads the first dates of batch `id` from `events` (batch id, event
/// type, date), in one pass.
pub fn event_dates(events: &[(i64, String, String)], id: i64) -> (d: EventDates)
    ensures
        opt_text(d.first) == first_event_date(events@, id),
        opt_text(d.juicing) == first_kind_date(events@, id, "juicing"@),
        opt_text(d.racking) == first_kind_date(events@, id, "racking"@),
        opt_text(d.bottling) == first_kind_date(events@, id, "bottling"@),
        opt_text(d.failed) == first_kind_date(events@, id, "failed"@),
{
    let mut d = EventDates { first: None, juicing: None, racking: None, bottling: None, failed: None };
    proof {
        reveal_strlit("juicing");
        reveal_strlit("racking");
        reveal_strlit("bottling");
        reveal_strlit("failed");
    }
    let mut k: usize = 0;
    assert(events@.take(0) =~= seq![]);
    while k < events.len()
        invariant
            0 <= k <= events@.len(),
            opt_text(d.first) == first_event_date(events@.take(k as int), id),
            opt_text(d.juicing) == first_kind_date(events@.take(k as int), id, "juicing"@),
            opt_text(d.racking) == first_kind_date(events@.take(k as int), id, "racking"@),
            opt_text(d.bottling) == first_kind_date(events@.take(k as int), id, "bottling"@),
            opt_text(d.failed) == first_kind_date(events@.take(k as int), id, "failed"@),
        decreases events@.len() - k,
    {
        assert(events@.take(k + 1).drop_last() =~= events@.take(k as int));
        assert(events@.take(k + 1).last() == events@[k as int]);
        let ev = &events[k];
        if ev.0 == id {
            if d.first.is_none() {
                d.first = Some(ev.2.clone());
            }
            let kind = ev.1.as_str();
            if d.juicing.is_none() && str_eq(kind, "juicing") {
                d.juicing = Some(ev.2.clone());
            }
            if d.racking.is_none() && str_eq(kind, "racking") {
                d.racking = Some(ev.2.clone());
            }
            if d.bottling.is_none() && str_eq(kind, "bottling") {
                d.bottling = Some(ev.2.clone());
            }
            if d.failed.is_none() && str_eq(kind, "failed") {
                d.failed = Some(ev.2.clone());
            }
        }
        k = k + 1;
    }
    assert(events@.take(events@.len() as int) =~= events@);
    d
}

/// The earliest gravity reading gives the batch's starting gravity only
/// when it was taken on the day of the batch's first juicing, before
/// fermentation could change it; otherwise the starting gravity is not
/// known.
pub fn starting_gravity_known(first_juicing: &Option<String>, first_reading_at: &Option<String>) -> (r: bool)
    ensures
        r == (first_juicing matches Some(j) && first_reading_at matches Some(g) && j@ == g@),
{
    match (first_juicing, first_reading_at) {
        (Some(j), Some(g)) => str_eq(j.as_str(), g.as_str()),
        _ => false,
    }
}

/// The bottles of batch `id` over the (batch id, bottle count) rows of its
/// bottling events, and how many such events there are.
pub open spec fn bottle_sum(bottlings: Seq<(i64, i64)>, id: i64) -> (int, nat)
    decreases bottlings.len(),
{
    if bottlings.len() == 0 {
        (0, 0)
    } else {
        let rest = bottle_sum(bottlings.drop_last(), id);
        if bottlings.last().0 == id {
            (rest.0 + bottlings.last().1, rest.1 + 1)
        } else {
            rest
        }
    }
}

/// The number of bottles a batch was bottled into, summed over its
/// bottling sessions; `None` when it has not been bottled.
pub fn bottle_total(bottlings: &[(i64, i64)], id: i64) -> (r: Option<i64>)
    requires
        forall|k: int|
            0 <= k <= bottlings@.len() ==> i64::MIN <= (#[trigger] bottle_sum(bottlings@.take(k), id)).0
                <= i64::MAX,
    ensures
        r == (if bottle_sum(bottlings@, id).1 == 0 {
            None::<i64>
        } else {
            Some(bottle_sum(bottlings@, id).0 as i64)
        }),
{
    let mut total: i64 = 0;
    let mut found = false;
    let mut k: usize = 0;
    assert(bottlings@.take(0) =~= seq![]);
    while k < bottlings.len()
        invariant
            0 <= k <= bottlings@.len(),
            forall|q: int|
                0 <= q <= bottlings@.len() ==> i64::MIN <= (#[trigger] bottle_sum(bottlings@.take(q), id)).0
                    <= i64::MAX,
            total == bottle_sum(bottlings@.take(k as int), id).0,
            found == (bottle_sum(bottlings@.take(k as int), id).1 > 0),
        decreases bottlings@.len() - k,
    {
        assert(bottlings@.take(k + 1).drop_last() =~= bottlings@.take(k as int));
        assert(bottlings@.take(k + 1).last() == bottlings@[k as int]);
        assert(i64::MIN <= bottle_sum(bottlings@.take(k + 1), id).0 <= i64::MAX);
        if bottlings[k].0 == id {
            total = total + bottlings[k].1;
            found = true;
        }
        k = k + 1;
    }
    assert(bottlings@.take(bottlings@.len() as int) =~= bottlings@);
    if found {
        Some(total)
    } else {
        None
    }
}

/// Whether every running total of batch `id`'s bottles, session by
/// session, fits in an `i64`.
pub open spec fn bottle_sums_fit(bottlings: Seq<(i64, i64)>, id: i64) -> bool {
    forall|k: int|
        0 <= k <= bottlings.len() ==> i64::MIN <= (#[trigger] bottle_sum(bottlings.take(k), id)).0 <= i64::MAX
}

/// `bottle_total` for any rows: `None` when a running total of the
/// batch's bottles leaves the `i64` range (where the database's `SUM`
/// reports an integer overflow), else `Some` of the total.
pub fn bottle_total_checked(bottlings: &[(i64, i64)], id: i64) -> (r: Option<Option<i64>>)
    ensures
        r is Some <==> bottle_sums_fit(bottlings@, id),
        r matches Some(t) ==> t == (if bottle_sum(bottlings@, id).1 == 0 {
            None::<i64>
        } else {
            Some(bottle_sum(bottlings@, id).0 as i64)
        }),
{
    let mut total: i64 = 0;
    let mut k: usize = 0;
    assert(bottlings@.take(0) =~= seq![]);
    while k < bottlings.len()
        invariant
            0 <= k <= bottlings@.len(),
            forall|q: int|
                0 <= q <= k ==> i64::MIN <= (#[trigger] bottle_sum(bottlings@.take(q), id)).0 <= i64::MAX,
            total == bottle_sum(bottlings@.take(k as int), id).0,
        decreases bottlings@.len() - k,
    {
        assert(bottlings@.take(k + 1).drop_last() =~= bottlings@.take(k as int));
        assert(bottlings@.take(k + 1).last() == bottlings@[k as int]);
        if bottlings[k].0 == id {
            match total.checked_add(bottlings[k].1) {
                Some(t) => total = t,
                None => {
                    assert(!(i64::MIN <= bottle_sum(bottlings@.take(k + 1), id).0 <= i64::MAX));
                    return None;
                },
            }
        }
        k = k + 1;
    }
    assert(bottlings@.take(k as int) =~= bottlings@);
    Some(bottle_total(bottlings, id))
}

/// A note of `n`: `Some` text that is not empty.
pub open spec fn is_note(n: Option<String>) -> bool {
    n matches Some(t) && t@.len() != 0
}

/// Every timeline summary ends with ` — ` and the event's note when it
/// has one, whatever else the event records, and reads the same as the
/// note-free summary when it has none: for racking (with or without a
/// loss), bottling, additive, measurement, tasting and juicing events.
pub proof fn law_summaries_end_with_the_note(
    volume: Seq<char>,
    loss: Option<String>,
    count: int,
    size: int,
    method: Option<String>,
    amount: Seq<char>,
    unit: Seq<char>,
    substance: Seq<char>,
    sg: Option<String>,
    ph: Option<String>,
    temperature: Option<String>,
    reading_volume: Option<String>,
    tasting_notes: Option<String>,
    score: int,
    trees: Seq<(String, Option<(String, String)>)>,
    equipment: Option<String>,
    notes: Option<String>,
)
    ensures
        ({
            let tail = if is_note(notes) { " — "@ + notes.unwrap()@ } else { seq![] };
            &&& racking_summary_text(volume, loss, notes) == racking_summary_text(volume, loss, None) + tail
            &&& bottling_summary_text(count, size, method, notes) == bottling_summary_text(count, size, method, None)
                + tail
            &&& additive_summary_text(amount, unit, substance, notes) == additive_summary_text(
                amount,
                unit,
                substance,
                None,
            ) + tail
            &&& measurement_summary_text(sg, ph, temperature, reading_volume, tasting_notes, notes)
                == measurement_summary_text(sg, ph, temperature, reading_volume, tasting_notes, None) + tail
            &&& tasting_summary_text(score, tasting_notes, notes) == tasting_summary_text(score, tasting_notes, None)
                + tail
            &&& juicing_summary_text(trees, volume, equipment, notes) == juicing_summary_text(
                trees,
                volume,
                equipment,
                None,
            ) + tail
        }),
{
    let tail = if is_note(notes) { " — "@ + notes.unwrap()@ } else { seq![] };
    assert forall|x: Seq<char>| #[trigger] with_notes_text(x, notes) == with_notes_text(x, None) + tail by {
        if !is_note(notes) {
            assert(with_notes_text(x, None) + tail =~= x);
        } else {
            assert(with_notes_text(x, notes) =~= x + " — "@ + notes.unwrap()@);
            assert(with_notes_text(x, None) + tail =~= x + " — "@ + notes.unwrap()@);
        }
    }
}

/// How many of the trees were ticked.
pub open spec fn ticked_count(trees: Seq<TreeSelection>) -> nat
    decreases trees.len(),
{
    if trees.len() == 0 {
        0
    } else {
        ticked_count(trees.drop_last()) + if trees.last().used { 1nat } else { 0nat }
    }
}

/// Some ticked tree has id `id` and the percentage text `text`.
pub open spec fn ticked_with(trees: Seq<TreeSelection>, id: i64, text: Seq<char>) -> bool {
    exists|j: int|
        0 <= j < trees.len() && (#[trigger] trees[j]).used && trees[j].tree_id == id && field_text(
            trees[j].percentage,
        ) == Some(text)
}

/// An accepted juicing form records exactly the ticked trees: one entry
/// per ticked tree, each naming a ticked tree with the percentage typed
/// next to it, and no entry for a tree left unticked, whatever its
/// percentage box holds.
pub proof fn law_accepted_trees_are_the_ticked_trees(fields: JuicingFields, sub: JuicingSubmission)
    requires
        juicing_error(fields) is None,
        juicing_ok(fields, sub),
    ensures
        sub.tree_percentages@.len() == ticked_count(fields.trees@),
        forall|i: int|
            0 <= i < sub.tree_percentages@.len() ==> ticked_with(
                fields.trees@,
                (#[trigger] sub.tree_percentages@[i]).0,
                sub.tree_percentages@[i].1@,
            ),
{
    let v = sub.tree_percentages@.map_values(|w: (i64, String)| percentage_view(w));
    lemma_ticked_trees(fields.trees@);
    assert(v.len() == sub.tree_percentages@.len());
    assert forall|i: int| 0 <= i < sub.tree_percentages@.len() implies ticked_with(
        fields.trees@,
        (#[trigger] sub.tree_percentages@[i]).0,
        sub.tree_percentages@[i].1@,
    ) by {
        assert(v[i] == percentage_view(sub.tree_percentages@[i]));
        assert(tree_percentages_spec(fields.trees@)[i] == v[i]);
    }
}

proof fn lemma_ticked_trees(trees: Seq<TreeSelection>)
    requires
        first_missing_percentage(trees) is None,
    ensures
        tree_percentages_spec(trees).len() == ticked_count(trees),
        forall|i: int|
            0 <= i < tree_percentages_spec(trees).len() ==> ticked_with(
                trees,
                (#[trigger] tree_percentages_spec(trees)[i]).0,
                tree_percentages_spec(trees)[i].1,
            ),
    decreases trees.len(),
{
    if trees.len() > 0 {
        let rest = trees.drop_last();
        lemma_ticked_trees(rest);
        let ps = tree_percentages_spec(trees);
        let pr = tree_percentages_spec(rest);
        assert forall|i: int| 0 <= i < ps.len() implies ticked_with(trees, (#[trigger] ps[i]).0, ps[i].1) by {
            if i < pr.len() {
                assert(ps[i] == pr[i]);
                assert(ticked_with(rest, pr[i].0, pr[i].1));
                let j = choose|j: int|
                    0 <= j < rest.len() && (#[trigger] rest[j]).used && rest[j].tree_id == pr[i].0 && field_text(
                        rest[j].percentage,
                    ) == Some(pr[i].1);
                assert(trees[j] == rest[j]);
            } else {
                let j = trees.len() - 1;
                assert(trees[j] == trees.last());
            }
        }
    }
}

} // verus!
