//! Exchange rates between currencies, fetched from the Frankfurter service and
//! searched for cheaper conversion routes.
//!
//! The verified part of the library: the calendar dates that requests are made
//! for and the ranges of days walked through, the request addresses, the
//! currency listing, the numbering of currencies in a rate graph, and the
//! bookkeeping of conversion routes.

pub mod calendar;
pub mod getter;
pub mod graph;
pub mod routes;

pub use calendar::{Date, DateRange, Dates};
pub use getter::CurrencyGetter;
pub use graph::{CurrencyGraph, CurrencyGraphBuilder, GraphBuilder};
pub use routes::{Chains, Hop};
