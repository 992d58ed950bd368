use currency_requester::graph::{CurrencyGraph, CurrencyGraphBuilder, GraphBuilder};
use currency_requester::getter::currency_codes;
use currency_requester::{CurrencyGetter, Date};

fn names(list: &[&str]) -> Vec<String> {
    list.iter().map(|s| s.to_string()).collect()
}

#[test]
fn currencies_are_numbered_by_their_positions() {
    let g = CurrencyGraph::new(&names(&["USD", "EUR", "CNY"]));
    assert_eq!(g.size(), 3);
    assert_eq!(g.number_of("USD"), Some(0));
    assert_eq!(g.number_of("EUR"), Some(1));
    assert_eq!(g.number_of("CNY"), Some(2));
    assert_eq!(g.number_of("RUB"), None);
    assert_eq!(g.currency_of(1), Some("EUR".to_string()));
    assert_eq!(g.currency_of(3), None);
}

#[test]
fn a_currency_listed_twice_keeps_its_last_position() {
    let g = CurrencyGraph::new(&names(&["USD", "EUR", "USD"]));
    assert_eq!(g.size(), 3);
    assert_eq!(g.number_of("USD"), Some(2));
    assert_eq!(g.currency_of(0), None);
    assert_eq!(g.currency_of(2), Some("USD".to_string()));
}

#[test]
fn an_exchange_needs_both_currencies() {
    let g = CurrencyGraph::new(&names(&["USD", "EUR", "CNY"]));
    assert_eq!(g.exchange_cell("EUR", "CNY"), Some((1, 2)));
    assert_eq!(g.exchange_cell("CNY", "CNY"), Some((2, 2)));
    assert_eq!(g.exchange_cell("EUR", "RUB"), None);
    assert_eq!(g.exchange_cell("RUB", "EUR"), None);
}

#[test]
fn the_rates_of_a_reply_fill_the_row_of_its_base() {
    let g = CurrencyGraph::new(&names(&["USD", "EUR", "CNY"]));
    let codes = names(&["CNY", "GBP", "USD"]);
    assert_eq!(g.rate_cells("EUR", &codes), vec![(1, 2, 0), (1, 0, 2)]);
    assert!(g.rate_cells("GBP", &codes).is_empty());
    assert!(g.rate_cells("USD", &Vec::new()).is_empty());
}

#[test]
fn the_sample_graph_numbers_five_currencies() {
    let g = GraphBuilder::new().build();
    assert_eq!(g.size(), 5);
    for (i, code) in ["USD", "EUR", "CNY", "RUB", "TRY"].iter().enumerate() {
        assert_eq!(g.number_of(code), Some(i));
        assert_eq!(g.currency_of(i), Some(code.to_string()));
    }
}

#[test]
fn a_graph_builder_takes_currencies_and_a_day() {
    let mut builder = CurrencyGraphBuilder::new();
    assert!(builder.currencies().is_empty());
    assert!(builder.date().is_real());
    builder.set_date(Date::new(2020, 2, 29)).set_currencies(names(&["USD", "EUR"]));
    assert_eq!(builder.date(), Date::new(2020, 2, 29));
    assert_eq!(builder.currencies(), &names(&["USD", "EUR"]));
    let g = builder.graph();
    assert_eq!(g.size(), 2);
    assert_eq!(g.number_of("EUR"), Some(1));
}

#[test]
fn every_number_of_a_graph_from_a_listing_has_a_currency() {
    let listing = CurrencyGetter::currencies_from_reply(
        r#"{"USD":"United States Dollar","EUR":"Euro","TRY":"Turkish Lira","CNY":"Yuan"}"#,
    );
    let g = CurrencyGraph::new(&currency_codes(&listing));
    assert_eq!(g.size(), 4);
    for i in 0..g.size() {
        let code = g.currency_of(i).unwrap();
        assert_eq!(g.number_of(&code), Some(i));
    }
}

#[test]
fn a_filled_cell_is_the_cell_that_the_exchange_reads() {
    let g = CurrencyGraph::new(&names(&["USD", "EUR", "CNY", "RUB"]));
    let codes = names(&["RUB", "JPY", "USD", "EUR"]);
    let cells = g.rate_cells("CNY", &codes);
    assert_eq!(cells.len(), 3);
    for (row, column, k) in cells {
        assert_eq!(g.exchange_cell("CNY", &codes[k]), Some((row, column)));
    }
}
