//! The requests made to the Frankfurter exchange-rate service, and the reading of its
//! currency listing.

use vstd::prelude::*;
use vstd::string::*;

use crate::calendar::{Date, date_text, date_to_text};

verus! {

/// The address of the Frankfurter service, to which resource names are appended.
pub open spec fn frankfurter_address() -> Seq<char> {
    "https://api.frankfurter.dev/v1/"@
}

/// What `serde_json` makes of a text read as a JSON object whose values are strings: its entries
/// in the order of their keys, or `None` when the text is not such an object.
pub uninterp spec fn json_string_map(text: Seq<char>) -> Option<Seq<(Seq<char>, Seq<char>)>>;

/// No key occurs twice among the entries.
pub open spec fn keys_distinct(entries: Seq<(Seq<char>, Seq<char>)>) -> bool {
    forall|i: int, j: int|
        0 <= i < entries.len() && 0 <= j < entries.len() && i != j ==> (#[trigger] entries[i]).0
            != (#[trigger] entries[j]).0
}

/// `a` comes before `b` in the order of texts: at the first place where they differ the
/// character of `a` has the lower code point, or `a` is a proper beginning of `b`. (Comparing
/// the UTF-8 bytes of two strings, as `str` does, gives this same order.)
pub open spec fn text_less(a: Seq<char>, b: Seq<char>) -> bool
    decreases a.len(),
{
    if a.len() == 0 {
        b.len() > 0
    } else if b.len() == 0 {
        false
    } else if a[0] != b[0] {
        (a[0] as int) < (b[0] as int)
    } else {
        text_less(a.drop_first(), b.drop_first())
    }
}

/// The keys of the entries rise strictly in the order of texts.
pub open spec fn keys_ascending(entries: Seq<(Seq<char>, Seq<char>)>) -> bool {
    forall|i: int, j: int|
        0 <= i < j < entries.len() ==> text_less(
            (#[trigger] entries[i]).0,
            (#[trigger] entries[j]).0,
        )
}

/// The listing read from a reply, or no entries when the reply could not be read.
pub open spec fn listing_or_empty(parsed: Option<Seq<(Seq<char>, Seq<char>)>>) -> Seq<
    (Seq<char>, Seq<char>),
> {
    match parsed {
        Some(entries) => entries,
        None => Seq::empty(),
    }
}

/// Reading a reply keeps every entry that serde_json reads, in its order, with nothing dropped
/// or added; a reply that cannot be read gives no entries.
pub proof fn lemma_listing_keeps_every_entry(parsed: Option<Seq<(Seq<char>, Seq<char>)>>)
    ensures
        parsed matches Some(entries) ==> {
            &&& listing_or_empty(parsed).len() == entries.len()
            &&& forall|k: int| 0 <= k < entries.len() ==> #[trigger] listing_or_empty(parsed)[k] == entries[k]
        },
        parsed is None ==> listing_or_empty(parsed).len() == 0,
{
}

/// Reads a text with `serde_json::from_str` as a `std::collections::BTreeMap<String, String>`
/// and hands its entries out in the map's order. Claimed: the entries are `json_string_map` of
/// the text (`None` exactly when serde_json refuses it), no key comes twice, as the keys of a
/// `BTreeMap` are distinct, and the keys rise, as a `BTreeMap` hands its entries out in the
/// order of its keys (for `String`, the order of their bytes, which is that of `text_less`).
/// Which entries a given text yields is left to the name.
#[verifier::external_body]
fn parse_string_map(text: &str) -> (r: Option<Vec<(String, String)>>)
    ensures
        r is None <==> json_string_map(text@) is None,
        r matches Some(v) ==> json_string_map(text@) == Some(v.deep_view()),
        r matches Some(v) ==> keys_distinct(v.deep_view()),
        r matches Some(v) ==> keys_ascending(v.deep_view()),
{
    match serde_json::from_str::<std::collections::BTreeMap<String, String>>(text) {
        Ok(m) => Some(m.into_iter().collect()),
        Err(_) => None,
    }
}

/// The codes of a currency listing, in its order.
pub open spec fn listing_codes(entries: Seq<(Seq<char>, Seq<char>)>) -> Seq<Seq<char>> {
    entries.map_values(|e: (Seq<char>, Seq<char>)| e.0)
}

/// The client of the exchange-rate service: it knows the service's address.
pub struct CurrencyGetter {
    resource: String,
}

impl CurrencyGetter {
    /// The address that resource names are appended to.
    pub closed spec fn resource_text(self) -> Seq<char> {
        self.resource@
    }

    /// A client of the public Frankfurter service.
    pub fn new() -> (r: Self)
        ensures
            r.resource_text() == frankfurter_address(),
    {
        CurrencyGetter { resource: String::from_str("https://api.frankfurter.dev/v1/") }
    }

    /// The address of a resource of the service: the service's address followed by `site`.
    pub fn url(&self, site: &str) -> (r: String)
        ensures
            r@ == self.resource_text() + site@,
    {
        let mut u = self.resource.clone();
        u.append(site);
        u
    }

    /// The address of the listing of all currencies.
    pub fn currencies_url(&self) -> (r: String)
        ensures
            r@ == self.resource_text() + "currencies"@,
    {
        self.url("currencies")
    }

    /// The address of the latest rates from the currency `base` to all others.
    pub fn latest_url(&self, base: &str) -> (r: String)
        ensures
            r@ == self.resource_text() + "latest?base="@ + base@,
    {
        let mut site = String::from_str("latest?base=");
        site.append(base);
        self.url(site.as_str())
    }

    /// The address of the rates from the currency `base` to all others on a given day.
    pub fn currencies_at_date_url(&self, base: &str, date: Date) -> (r: String)
        requires
            date.valid(),
        ensures
            r@ == self.resource_text() + date_text(date) + "?base="@ + base@,
    {
        let mut site = date_to_text(date);
        site.append("?base=");
        site.append(base);
        let r = self.url(site.as_str());
        assert(r@ =~= self.resource_text() + date_text(date) + "?base="@ + base@);
        r
    }

    /// The currency listing in a reply of the service: the codes with their names, in rising
    /// order of the codes (so the lowest code comes first, and gets number 0 in a graph of the
    /// listed codes), or no entries when the reply is not a JSON object of strings.
    pub fn currencies_from_reply(text: &str) -> (r: Vec<(String, String)>)
        ensures
            r.deep_view() == listing_or_empty(json_string_map(text@)),
            json_string_map(text@) matches Some(entries) ==> r.deep_view() == entries,
            json_string_map(text@) is None ==> r.len() == 0,
            keys_distinct(r.deep_view()),
            keys_ascending(r.deep_view()),
    {
        match parse_string_map(text) {
            Some(entries) => entries,
            None => Vec::new(),
        }
    }
}

/// The codes of a currency listing, in its order.
pub fn currency_codes(listing: &Vec<(String, String)>) -> (r: Vec<String>)
    ensures
        r@.map_values(|s: String| s@) == listing_codes(listing.deep_view()),
{
    let mut codes: Vec<String> = Vec::new();
    let n = listing.len();
    for i in 0..n
        invariant
            n == listing.len(),
            codes.len() == i,
            forall|k: int| 0 <= k < i ==> (#[trigger] codes@[k])@ == listing@[k].0@,
    {
        let code = listing[i].0.clone();
        codes.push(code);
    }
    assert(codes@.map_values(|s: String| s@) =~= listing_codes(listing.deep_view()));
    codes
}

} // verus!
