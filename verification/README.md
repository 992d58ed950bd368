# currency_requester

Exchange rates between currencies, fetched from the Frankfurter service
(`https://api.frankfurter.dev/v1/`), kept in rate graphs and searched for
conversion routes that give more than the direct rate.

- `src/` is the library, verified with Verus:
  - `calendar`: dates as plain numbers, their checking and stepping by the
    `time` crate, and the walk through a span of days;
  - `getter`: the addresses of the requests and the reading of the currency
    listing (through `serde_json`);
  - `graph`: the numbering of the currencies of a rate graph and the builders
    of graphs;
  - `routes`: the chains of exchanges kept while searching for routes, and the
    stretches of a route that are compared with direct rates.
- `app/` is the unverified rest: the HTTP requests (`reqwest`, `tokio`), the
  floating-point rate matrices (`ndarray`) and the route search over them, and
  the C interface.
- `tests/` runs the library on concrete values.
