use ciderhub::batches::str_le;
use ciderhub::charts::day_offset;
use ciderhub::dates::{
    iso_date_string, month_day_of, month_name, month_options, month_options_selected, season_date,
    today_day, today_iso, today_month,
};

#[test]
fn iso_dates_are_written_like_naive_date_display() {
    assert_eq!(iso_date_string(2024, 9, 1), "2024-09-01");
    assert_eq!(iso_date_string(7, 1, 2), "0007-01-02");
    assert_eq!(iso_date_string(-12, 3, 4), "-0012-03-04");
    assert_eq!(iso_date_string(12345, 12, 31), "+12345-12-31");
}

#[test]
fn season_date_joins_year_month_and_day() {
    assert_eq!(season_date(2024, 9, 15).unwrap(), "2024-09-15");
    assert_eq!(season_date(2024, 2, 29).unwrap(), "2024-02-29");
}

#[test]
fn season_date_refuses_a_day_that_does_not_exist() {
    let err = season_date(2023, 2, 29).unwrap_err();
    assert_eq!((err.year, err.month, err.day), (2023, 2, 29));
    assert_eq!(err.message(), "2023-02-29 is not a valid date");
    assert_eq!(season_date(2024, 13, 1).unwrap_err().message(), "2024-13-01 is not a valid date");
    assert_eq!(season_date(-5, 4, 31).unwrap_err().message(), "-005-04-31 is not a valid date");
}

#[test]
fn month_and_day_read_back_from_a_stored_date() {
    assert_eq!(month_day_of("2024-09-15"), Some((9, 15)));
    assert_eq!(month_day_of("2024-02-30"), None);
    assert_eq!(month_day_of("15.09.2024"), None);
}

#[test]
fn season_date_reads_back_through_month_day_of() {
    for (y, m, d) in [(2024, 9, 15), (2023, 12, 31), (2000, 2, 29), (1999, 1, 1)] {
        let stored = season_date(y, m, d).unwrap();
        assert_eq!(month_day_of(&stored), Some((m, d)));
    }
}

#[test]
fn month_names() {
    assert_eq!(month_name(1), "January");
    assert_eq!(month_name(9), "September");
    assert_eq!(month_name(12), "December");
}

#[test]
fn month_picker_selects_the_given_month() {
    let options = month_options_selected(10);
    assert_eq!(options.len(), 12);
    for (i, o) in options.iter().enumerate() {
        assert_eq!(o.value, i as u32 + 1);
        assert_eq!(o.selected, i == 9);
    }
    assert_eq!(options[0].label, "January");
    assert_eq!(options[11].label, "December");
}

#[test]
fn today_agrees_with_itself() {
    let iso = today_iso();
    let month = today_month();
    let day = today_day();
    assert_eq!(iso.len(), 10);
    assert!((1..=12).contains(&month));
    assert!((1..=31).contains(&day));
    assert_eq!(month_day_of(&iso).map(|(m, _)| m), Some(month));
    let options = month_options();
    assert_eq!(options.iter().filter(|o| o.selected).count(), 1);
    assert!(options[month as usize - 1].selected);
}

#[test]
fn iso_texts_sort_in_date_order() {
    let dates = ["2023-12-31", "2024-01-01", "2024-02-29", "2024-03-01", "2024-10-09", "2024-10-10", "0999-05-05"];
    for a in dates {
        for b in dates {
            assert_eq!(str_le(a, b), day_offset(a).unwrap() <= day_offset(b).unwrap(), "{a} {b}");
        }
    }
}
