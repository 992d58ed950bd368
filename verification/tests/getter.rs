use currency_requester::getter::currency_codes;
use currency_requester::{CurrencyGetter, Date};

#[test]
fn requests_go_to_the_frankfurter_service() {
    let getter = CurrencyGetter::new();
    assert_eq!(getter.url("currencies"), "https://api.frankfurter.dev/v1/currencies");
    assert_eq!(getter.currencies_url(), "https://api.frankfurter.dev/v1/currencies");
    assert_eq!(getter.url(""), "https://api.frankfurter.dev/v1/");
}

#[test]
fn the_latest_rates_are_asked_for_a_base_currency() {
    let getter = CurrencyGetter::new();
    assert_eq!(getter.latest_url("USD"), "https://api.frankfurter.dev/v1/latest?base=USD");
}

#[test]
fn rates_of_a_day_are_asked_by_the_date_in_iso_form() {
    let getter = CurrencyGetter::new();
    assert_eq!(
        getter.currencies_at_date_url("USD", Date::new(1999, 1, 4)),
        "https://api.frankfurter.dev/v1/1999-01-04?base=USD"
    );
    assert_eq!(
        getter.currencies_at_date_url("EUR", Date::new(2024, 12, 31)),
        "https://api.frankfurter.dev/v1/2024-12-31?base=EUR"
    );
    assert_eq!(
        getter.currencies_at_date_url("EUR", Date::new(33, 7, 9)),
        "https://api.frankfurter.dev/v1/0033-07-09?base=EUR"
    );
    assert_eq!(
        getter.currencies_at_date_url("EUR", Date::new(-5, 3, 7)),
        "https://api.frankfurter.dev/v1/-0005-03-07?base=EUR"
    );
}

#[test]
fn the_currency_listing_is_read_in_the_order_of_the_codes() {
    let listing = CurrencyGetter::currencies_from_reply(
        r#"{"USD":"United States Dollar","EUR":"Euro","CNY":"Chinese Renminbi Yuan"}"#,
    );
    assert_eq!(
        listing,
        vec![
            ("CNY".to_string(), "Chinese Renminbi Yuan".to_string()),
            ("EUR".to_string(), "Euro".to_string()),
            ("USD".to_string(), "United States Dollar".to_string()),
        ]
    );
    assert_eq!(currency_codes(&listing), vec!["CNY", "EUR", "USD"]);
}

#[test]
fn a_reply_that_is_not_a_listing_gives_no_currencies() {
    assert!(CurrencyGetter::currencies_from_reply("not json").is_empty());
    assert!(CurrencyGetter::currencies_from_reply(r#"{"USD": 1.5}"#).is_empty());
    assert!(CurrencyGetter::currencies_from_reply(r#"["USD","EUR"]"#).is_empty());
    assert!(CurrencyGetter::currencies_from_reply("{}").is_empty());
}

#[test]
fn a_code_given_twice_in_a_reply_is_listed_once() {
    let listing = CurrencyGetter::currencies_from_reply(r#"{"USD":"Dollar","USD":"US Dollar"}"#);
    assert_eq!(listing, vec![("USD".to_string(), "US Dollar".to_string())]);
}

#[test]
fn listing_codes_rise_by_code_point() {
    let listing = CurrencyGetter::currencies_from_reply(r#"{"Z":"z","É":"e","AB":"ab","A":"a"}"#);
    assert_eq!(currency_codes(&listing), vec!["A", "AB", "Z", "É"]);
}
