use currency_requester::calendar::{date_precedes_or_equals, date_range};
use currency_requester::{Date, Dates};

fn d(year: i32, month: u8, day: u8) -> Date {
    Date::new(year, month, day)
}

#[test]
fn real_dates_follow_the_gregorian_calendar() {
    assert!(d(2024, 2, 29).is_real());
    assert!(d(2000, 2, 29).is_real());
    assert!(!d(1900, 2, 29).is_real());
    assert!(!d(2023, 2, 29).is_real());
    assert!(d(2023, 2, 28).is_real());
    assert!(!d(2024, 4, 31).is_real());
    assert!(d(2024, 12, 31).is_real());
    assert!(!d(2024, 13, 1).is_real());
    assert!(!d(2024, 0, 1).is_real());
    assert!(!d(2024, 1, 0).is_real());
    assert!(!d(2024, 1, 32).is_real());
}

#[test]
fn real_dates_stay_within_four_digit_years() {
    assert!(d(9999, 12, 31).is_real());
    assert!(d(-9999, 1, 1).is_real());
    assert!(!d(10000, 1, 1).is_real());
    assert!(!d(-10000, 12, 31).is_real());
    assert!(d(-4, 2, 29).is_real());
}

#[test]
fn dates_compare_by_year_then_month_then_day() {
    assert!(date_precedes_or_equals(&d(2023, 12, 31), &d(2024, 1, 1)));
    assert!(date_precedes_or_equals(&d(2024, 1, 31), &d(2024, 2, 1)));
    assert!(date_precedes_or_equals(&d(2024, 2, 1), &d(2024, 2, 1)));
    assert!(!date_precedes_or_equals(&d(2024, 2, 2), &d(2024, 2, 1)));
    assert!(!date_precedes_or_equals(&d(2025, 1, 1), &d(2024, 12, 31)));
}

#[test]
fn a_range_yields_the_days_after_the_start_up_to_the_day_after_the_end() {
    let days = date_range(d(2024, 1, 1), d(2024, 1, 3)).days();
    assert_eq!(days, vec![d(2024, 1, 2), d(2024, 1, 3), d(2024, 1, 4)]);
}

#[test]
fn a_range_crosses_months_years_and_leap_days() {
    let days = date_range(d(2023, 12, 30), d(2023, 12, 31)).days();
    assert_eq!(days, vec![d(2023, 12, 31), d(2024, 1, 1)]);
    let days = date_range(d(2024, 2, 28), d(2024, 2, 28)).days();
    assert_eq!(days, vec![d(2024, 2, 29)]);
    let days = date_range(d(2023, 2, 28), d(2023, 2, 28)).days();
    assert_eq!(days, vec![d(2023, 3, 1)]);
    let days = date_range(d(2024, 4, 30), d(2024, 4, 30)).days();
    assert_eq!(days, vec![d(2024, 5, 1)]);
}

#[test]
fn a_range_whose_start_is_after_its_end_yields_nothing() {
    assert!(date_range(d(2024, 1, 5), d(2024, 1, 3)).days().is_empty());
}

#[test]
fn a_range_stops_at_the_last_day_of_the_calendar() {
    let days = date_range(d(9999, 12, 30), d(9999, 12, 31)).days();
    assert_eq!(days, vec![d(9999, 12, 31)]);
    assert!(date_range(d(9999, 12, 31), d(9999, 12, 31)).days().is_empty());
}

#[test]
fn each_step_of_a_range_moves_to_the_day_it_yields() {
    let mut range = date_range(d(2024, 3, 30), d(2024, 3, 31));
    assert_eq!(range.next(), Some(d(2024, 3, 31)));
    assert_eq!(range.next(), Some(d(2024, 4, 1)));
    assert_eq!(range.next(), None);
    assert_eq!(range.next(), None);
}

#[test]
fn a_span_with_a_date_that_is_not_real_has_no_range() {
    let bad = Dates { from: d(2024, 2, 30), to: d(2024, 3, 2) };
    assert!(bad.range().is_none());
    let bad_end = Dates { from: d(2024, 2, 1), to: d(2024, 0, 2) };
    assert!(bad_end.range().is_none());
    let good = Dates { from: d(2024, 2, 28), to: d(2024, 3, 1) };
    let days = good.range().unwrap().days();
    assert_eq!(days, vec![d(2024, 2, 29), d(2024, 3, 1), d(2024, 3, 2)]);
}

#[test]
fn a_range_over_a_span_yields_its_length_in_days_plus_one() {
    let days = date_range(d(2023, 12, 25), d(2024, 3, 1)).days();
    assert_eq!(days.len(), 6 + 31 + 29 + 1 + 1);
    assert_eq!(days[0], d(2023, 12, 26));
    assert_eq!(days[6], d(2024, 1, 1));
    assert_eq!(*days.last().unwrap(), d(2024, 3, 2));
    for pair in days.windows(2) {
        let mut step = date_range(pair[0], pair[0]);
        assert_eq!(step.next(), Some(pair[1]));
    }
}
