//! The numbering of the currencies of a rate graph, the builders of such graphs, and the cells
//! of the rate matrix that the service's replies fill. The routes found in a graph are kept in
//! `routes`.

use std::collections::HashMap;
use vstd::prelude::*;
use vstd::hash_map::StringHashMap;
use vstd::string::*;

use crate::calendar::{Date, today_utc};
use crate::getter::{keys_distinct, listing_codes};

verus! {

broadcast use vstd::std_specs::hash::group_hash_axioms;

/// The texts of a list of strings.
pub open spec fn texts(v: Seq<String>) -> Seq<Seq<char>> {
    v.map_values(|s: String| s@)
}

/// The position of the last occurrence of `name` among `names`, or -1 when it does not occur.
pub open spec fn last_position(names: Seq<Seq<char>>, name: Seq<char>) -> int
    decreases names.len(),
{
    if names.len() == 0 {
        -1
    } else if names.last() == name {
        names.len() - 1
    } else {
        last_position(names.drop_last(), name)
    }
}

/// The number of each listed currency: the position of its last occurrence in the list.
pub open spec fn numbering(names: Seq<Seq<char>>) -> Map<Seq<char>, usize> {
    Map::new(|n: Seq<char>| names.contains(n), |n: Seq<char>| last_position(names, n) as usize)
}

/// The currency of each number: the positions that hold the last occurrence of their currency.
pub open spec fn naming(names: Seq<Seq<char>>) -> Map<usize, Seq<char>> {
    Map::new(
        |i: usize| i < names.len() && last_position(names, names[i as int]) == i,
        |i: usize| names[i as int],
    )
}

/// What `last_position` finds: an occurrence with none after it, or -1 for a name not listed.
pub proof fn lemma_last_position(names: Seq<Seq<char>>, name: Seq<char>)
    ensures
        -1 <= last_position(names, name) < names.len(),
        last_position(names, name) == -1 <==> !names.contains(name),
        last_position(names, name) >= 0 ==> names[last_position(names, name)] == name,
        forall|j: int|
            last_position(names, name) < j < names.len() ==> #[trigger] names[j] != name,
    decreases names.len(),
{
    if names.len() > 0 {
        let rest = names.drop_last();
        lemma_last_position(rest, name);
        if names.last() != name {
            if names.contains(name) {
                let k = choose|k: int| 0 <= k < names.len() && names[k] == name;
                assert(rest[k] == name);
            }
            if rest.contains(name) {
                let k = choose|k: int| 0 <= k < rest.len() && rest[k] == name;
                assert(names[k] == name);
            }
            assert forall|j: int| last_position(names, name) < j < names.len() implies #[trigger] names[j]
                != name by {
                if j < names.len() - 1 {
                    assert(names[j] == rest[j]);
                }
            }
        } else {
            assert(names[names.len() - 1] == name);
        }
    }
}

/// The number of a currency is its position in the list: a position that holds the last
/// occurrence of its currency is that currency's number and has that currency, a position whose
/// currency occurs again later has no currency, and exactly the listed currencies are numbered.
pub proof fn lemma_numbers_are_positions(names: Seq<Seq<char>>, k: int)
    requires
        0 <= k < names.len(),
        names.len() <= usize::MAX,
    ensures
        (forall|j: int| k < j < names.len() ==> names[j] != names[k]) ==> {
            &&& numbering(names).contains_key(names[k])
            &&& numbering(names)[names[k]] as int == k
            &&& naming(names).contains_key(k as usize)
            &&& naming(names)[k as usize] == names[k]
        },
        (exists|j: int| k < j < names.len() && names[j] == names[k]) ==> !naming(
            names,
        ).contains_key(k as usize),
        forall|n: Seq<char>| numbering(names).contains_key(n) <==> names.contains(n),
{
    lemma_last_position(names, names[k]);
    let p = last_position(names, names[k]);
    if forall|j: int| k < j < names.len() ==> names[j] != names[k] {
        assert(names.contains(names[k]));
        if p != k {
            assert(p > k) by {
                if p < k {
                    assert(names[k] == names[k]);
                }
            }
            assert(names[p] == names[k]);
        }
        assert(p == k);
    }
    if exists|j: int| k < j < names.len() && names[j] == names[k] {
        let j = choose|j: int| k < j < names.len() && names[j] == names[k];
        assert(p >= j);
    }
}

/// Numbers and currencies of a list undo each other: the currency of a currency's number is
/// that currency, and the number of a number's currency is that number.
pub proof fn lemma_numbering_naming_inverse(names: Seq<Seq<char>>)
    requires
        names.len() <= usize::MAX,
    ensures
        forall|n: Seq<char>|
            #[trigger] numbering(names).contains_key(n) ==> naming(names).contains_key(
                numbering(names)[n],
            ) && naming(names)[numbering(names)[n]] == n,
        forall|i: usize|
            #[trigger] naming(names).contains_key(i) ==> numbering(names).contains_key(
                naming(names)[i],
            ) && numbering(names)[naming(names)[i]] == i,
{
    assert forall|n: Seq<char>| #[trigger] numbering(names).contains_key(n) implies naming(
        names,
    ).contains_key(numbering(names)[n]) && naming(names)[numbering(names)[n]] == n by {
        lemma_last_position(names, n);
        let i = last_position(names, n);
        assert(names[i] == n);
        assert((i as usize) as int == i);
    }
    assert forall|i: usize| #[trigger] naming(names).contains_key(i) implies numbering(
        names,
    ).contains_key(naming(names)[i]) && numbering(names)[naming(names)[i]] == i by {
        assert(names.contains(names[i as int]));
    }
}

/// When no currency is listed twice, every number below the length of the list has a currency.
pub proof fn lemma_distinct_names_all_named(names: Seq<Seq<char>>)
    requires
        names.no_duplicates(),
    ensures
        forall|i: usize| #[trigger] naming(names).contains_key(i) <==> i < names.len(),
{
    assert forall|i: usize| i < names.len() implies #[trigger] naming(names).contains_key(i) by {
        lemma_last_position(names, names[i as int]);
    }
}

/// A graph numbered from the codes of a currency listing, whose codes are distinct, has a
/// currency for every number: every exchange of a route in it can be named.
pub proof fn lemma_listing_names_every_number(entries: Seq<(Seq<char>, Seq<char>)>)
    requires
        keys_distinct(entries),
    ensures
        forall|i: usize| #[trigger]
            naming(listing_codes(entries)).contains_key(i) <==> i < entries.len(),
{
    let codes = listing_codes(entries);
    assert forall|i: int, j: int| 0 <= i < codes.len() && 0 <= j < codes.len() && i != j implies codes[i]
        != codes[j] by {
        assert(codes[i] == entries[i].0);
        assert(codes[j] == entries[j].0);
    }
    lemma_distinct_names_all_named(codes);
}

/// The numbering of the currencies of a rate graph: each currency to the row and column of the
/// rate matrix that belong to it, and back.
pub struct CurrencyGraph {
    currency_to_number: StringHashMap<usize>,
    number_to_currency: HashMap<usize, String>,
    size: usize,
}

impl CurrencyGraph {
    #[verifier::type_invariant]
    spec fn numbers_and_names_agree(self) -> bool {
        &&& forall|n: Seq<char>| #[trigger]
            self.currency_to_number@.contains_key(n) ==> {
                let i = self.currency_to_number@[n];
                &&& i < self.size
                &&& self.number_to_currency@.contains_key(i)
                &&& self.number_to_currency@[i]@ == n
            }
        &&& forall|i: usize| #[trigger]
            self.number_to_currency@.contains_key(i) ==> {
                &&& i < self.size
                &&& self.currency_to_number@.contains_key(self.number_to_currency@[i]@)
                &&& self.currency_to_number@[self.number_to_currency@[i]@] == i
            }
    }

    /// The number of each currency of the graph.
    pub closed spec fn numbers(self) -> Map<Seq<char>, usize> {
        self.currency_to_number@
    }

    /// The currency of each number that has one.
    pub closed spec fn names(self) -> Map<usize, Seq<char>> {
        Map::new(
            |i: usize| self.number_to_currency@.contains_key(i),
            |i: usize| self.number_to_currency@[i]@,
        )
    }

    /// The number of rows (and columns) of the graph's rate matrix.
    pub closed spec fn dimension(self) -> nat {
        self.size as nat
    }

    /// Numbers the currencies of a list by their positions; a currency listed twice keeps the
    /// number of its last position, and its other positions have no currency. The rate matrix
    /// has a row for every position.
    pub fn new(currencies: &Vec<String>) -> (r: CurrencyGraph)
        ensures
            r.numbers() == numbering(texts(currencies@)),
            r.names() == naming(texts(currencies@)),
            r.dimension() == currencies.len(),
    {
        let ghost names = texts(currencies@);
        let mut c_to_n: StringHashMap<usize> = StringHashMap::new();
        let mut n_to_c: HashMap<usize, String> = HashMap::new();
        let n = currencies.len();
        for i in 0..n
            invariant
                n == currencies.len(),
                names == texts(currencies@),
                c_to_n@ == numbering(names.take(i as int)),
                forall|j: usize|
                    #[trigger] n_to_c@.contains_key(j) == naming(names.take(i as int)).contains_key(
                        j,
                    ),
                forall|j: usize|
                    #[trigger] n_to_c@.contains_key(j) ==> n_to_c@[j]@ == names[j as int],
        {
            let ghost before = names.take(i as int);
            let ghost after = names.take(i + 1);
            let name = &currencies[i];
            assert(after.drop_last() =~= before);
            assert(after.last() == name@);
            proof {
                lemma_last_position(before, name@);
            }
            match c_to_n.get(name.as_str()) {
                Some(previous) => {
                    n_to_c.remove(previous);
                },
                None => {},
            }
            c_to_n.insert(name.clone(), i);
            n_to_c.insert(i, name.clone());
            assert forall|m: Seq<char>| #[trigger]
                numbering(after).contains_key(m) == c_to_n@.contains_key(m) && (
                c_to_n@.contains_key(m) ==> numbering(after)[m] == c_to_n@[m]) by {
                if m != name@ {
                    assert(after.contains(m) ==> before.contains(m)) by {
                        if after.contains(m) {
                            let k = choose|k: int| 0 <= k < after.len() && after[k] == m;
                            assert(before[k] == m);
                        }
                    }
                    assert(before.contains(m) ==> after.contains(m)) by {
                        if before.contains(m) {
                            let k = choose|k: int| 0 <= k < before.len() && before[k] == m;
                            assert(after[k] == m);
                        }
                    }
                } else {
                    assert(after[i as int] == m);
                }
            }
            assert(c_to_n@ =~= numbering(after));
            assert forall|j: usize| #[trigger]
                n_to_c@.contains_key(j) == naming(after).contains_key(j) by {
                if j < i {
                    assert(after[j as int] == before[j as int]);
                    lemma_last_position(before, before[j as int]);
                }
            }
        }
        assert(names.take(n as int) =~= names);
        proof {
            lemma_numbering_naming_inverse(names);
            assert forall|m: Seq<char>| #[trigger] numbering(names).contains_key(m) implies numbering(
                names,
            )[m] < n by {
                lemma_last_position(names, m);
            }
            assert forall|m: Seq<char>| #[trigger] c_to_n@.contains_key(m) implies {
                let i = c_to_n@[m];
                &&& i < n
                &&& n_to_c@.contains_key(i)
                &&& n_to_c@[i]@ == m
            } by {
                assert(numbering(names).contains_key(m));
                let i = c_to_n@[m];
                assert(naming(names.take(n as int)).contains_key(i));
            }
            assert forall|j: usize| #[trigger] n_to_c@.contains_key(j) implies {
                &&& j < n
                &&& c_to_n@.contains_key(n_to_c@[j]@)
                &&& c_to_n@[n_to_c@[j]@] == j
            } by {
                assert(naming(names).contains_key(j));
                assert(naming(names)[j] == names[j as int]);
            }
        }
        let r = CurrencyGraph { currency_to_number: c_to_n, number_to_currency: n_to_c, size: n };
        assert(r.names() =~= naming(names));
        r
    }
}

/// The matrix cells that the rates of one reply fill: for each listed currency `codes[k]` that
/// the graph numbers, the cell in the row of `row` and the column of that currency, with `k`.
pub open spec fn known_cells(numbers: Map<Seq<char>, usize>, row: usize, codes: Seq<Seq<char>>) -> Seq<
    (usize, usize, usize),
>
    decreases codes.len(),
{
    if codes.len() == 0 {
        Seq::empty()
    } else {
        let before = known_cells(numbers, row, codes.drop_last());
        if numbers.contains_key(codes.last()) {
            before.push((row, numbers[codes.last()], (codes.len() - 1) as usize))
        } else {
            before
        }
    }
}

/// The cells that a reply with base currency `base` fills: none when the graph does not number
/// `base`.
pub open spec fn rate_cells_of(numbers: Map<Seq<char>, usize>, base: Seq<char>, codes: Seq<Seq<char>>) -> Seq<
    (usize, usize, usize),
> {
    if numbers.contains_key(base) {
        known_cells(numbers, numbers[base], codes)
    } else {
        Seq::empty()
    }
}

/// The cells that a reply fills are the cells that exchanges between its base and its
/// currencies read: each filled cell `(row, column, k)` is the cell of the exchange from `base`
/// to `codes[k]`, and the cell of every such exchange that the graph can make is filled, with
/// the rate at a position of that currency among the codes.
pub proof fn lemma_rate_cells_are_exchange_cells(
    numbers: Map<Seq<char>, usize>,
    base: Seq<char>,
    codes: Seq<Seq<char>>,
)
    requires
        codes.len() <= usize::MAX,
    ensures
        forall|j: int|
            0 <= j < rate_cells_of(numbers, base, codes).len() ==> {
                let (row, column, k) = #[trigger] rate_cells_of(numbers, base, codes)[j];
                &&& numbers.contains_key(base)
                &&& row == numbers[base]
                &&& k < codes.len()
                &&& numbers.contains_key(codes[k as int])
                &&& column == numbers[codes[k as int]]
            },
        forall|k: int|
            0 <= k < codes.len() && numbers.contains_key(base) && numbers.contains_key(
                #[trigger] codes[k],
            ) ==> rate_cells_of(numbers, base, codes).contains(
                (numbers[base], numbers[codes[k]], k as usize),
            ),
{
    if numbers.contains_key(base) {
        lemma_known_cells(numbers, numbers[base], codes);
    }
}

proof fn lemma_known_cells(numbers: Map<Seq<char>, usize>, row: usize, codes: Seq<Seq<char>>)
    requires
        codes.len() <= usize::MAX,
    ensures
        forall|j: int|
            0 <= j < known_cells(numbers, row, codes).len() ==> {
                let (r, column, k) = #[trigger] known_cells(numbers, row, codes)[j];
                &&& r == row
                &&& k < codes.len()
                &&& numbers.contains_key(codes[k as int])
                &&& column == numbers[codes[k as int]]
            },
        forall|k: int|
            0 <= k < codes.len() && numbers.contains_key(#[trigger] codes[k]) ==> known_cells(
                numbers,
                row,
                codes,
            ).contains((row, numbers[codes[k]], k as usize)),
    decreases codes.len(),
{
    if codes.len() > 0 {
        let rest = codes.drop_last();
        lemma_known_cells(numbers, row, rest);
        let before = known_cells(numbers, row, rest);
        let all = known_cells(numbers, row, codes);
        let last = (codes.len() - 1) as int;
        assert forall|j: int| 0 <= j < all.len() implies {
            let (r, column, k) = #[trigger] all[j];
            &&& r == row
            &&& k < codes.len()
            &&& numbers.contains_key(codes[k as int])
            &&& column == numbers[codes[k as int]]
        } by {
            if j < before.len() {
                assert(all[j] == before[j]);
                let k = before[j].2;
                assert(codes[k as int] == rest[k as int]);
            }
        }
        assert forall|k: int|
            0 <= k < codes.len() && numbers.contains_key(#[trigger] codes[k]) implies all.contains(
            (row, numbers[codes[k]], k as usize),
        ) by {
            if k < last {
                assert(rest[k] == codes[k]);
                let j = choose|j: int|
                    0 <= j < before.len() && before[j] == (row, numbers[rest[k]], k as usize);
                assert(all[j] == before[j]);
            } else {
                assert(all[all.len() - 1] == (row, numbers[codes[k]], k as usize));
            }
        }
    }
}

impl CurrencyGraph {
    /// The number of rows (and columns) of the graph's rate matrix.
    pub fn size(&self) -> (r: usize)
        ensures
            r == self.dimension(),
    {
        self.size
    }

    /// The number of a currency, if the graph has it; it is a row of the rate matrix.
    pub fn number_of(&self, name: &str) -> (r: Option<usize>)
        ensures
            r == (if self.numbers().contains_key(name@) {
                Some(self.numbers()[name@])
            } else {
                None
            }),
            r matches Some(i) ==> i < self.dimension(),
    {
        proof {
            use_type_invariant(self);
        }
        match self.currency_to_number.get(name) {
            Some(i) => Some(*i),
            None => None,
        }
    }

    /// The currency of a number, if it has one.
    pub fn currency_of(&self, number: usize) -> (r: Option<String>)
        ensures
            r is Some <==> self.names().contains_key(number),
            r matches Some(s) ==> s@ == self.names()[number],
    {
        match self.number_to_currency.get(&number) {
            Some(s) => Some(s.clone()),
            None => None,
        }
    }

    /// The cell of the rate matrix that holds the rate from `from` to `to`: `None` when the
    /// graph lacks either currency.
    pub fn exchange_cell(&self, from: &str, to: &str) -> (r: Option<(usize, usize)>)
        ensures
            r == (if self.numbers().contains_key(from@) && self.numbers().contains_key(to@) {
                Some((self.numbers()[from@], self.numbers()[to@]))
            } else {
                None
            }),
            r matches Some((a, b)) ==> a < self.dimension() && b < self.dimension(),
    {
        let v1 = match self.number_of(from) {
            Some(v) => v,
            None => return None,
        };
        let v2 = match self.number_of(to) {
            Some(v) => v,
            None => return None,
        };
        Some((v1, v2))
    }

    /// The cells that a reply of the service fills: it gives the rates from `base` to the
    /// currencies `codes`; each code that the graph numbers yields its cell in the row of
    /// `base` together with the code's position among `codes`.
    pub fn rate_cells(&self, base: &str, codes: &Vec<String>) -> (r: Vec<(usize, usize, usize)>)
        ensures
            r@ == rate_cells_of(self.numbers(), base@, texts(codes@)),
            forall|k: int|
                0 <= k < r.len() ==> (#[trigger] r@[k]).0 < self.dimension() && r@[k].1
                    < self.dimension() && r@[k].2 < codes.len(),
    {
        let mut cells: Vec<(usize, usize, usize)> = Vec::new();
        let row = match self.number_of(base) {
            Some(row) => row,
            None => return cells,
        };
        let ghost names = texts(codes@);
        let n = codes.len();
        for k in 0..n
            invariant
                n == codes.len(),
                names == texts(codes@),
                row < self.dimension(),
                self.numbers().contains_key(base@),
                row == self.numbers()[base@],
                cells@ == known_cells(self.numbers(), row, names.take(k as int)),
                forall|j: int|
                    0 <= j < cells.len() ==> (#[trigger] cells@[j]).0 < self.dimension()
                        && cells@[j].1 < self.dimension() && cells@[j].2 < k,
        {
            assert(names.take(k + 1).drop_last() =~= names.take(k as int));
            assert(names.take(k + 1).last() == codes@[k as int]@);
            match self.number_of(codes[k].as_str()) {
                Some(column) => {
                    cells.push((row, column, k));
                },
                None => {},
            }
        }
        assert(names.take(n as int) =~= names);
        cells
    }
}

/// The currencies of the sample graph, in the order of their numbers.
pub open spec fn sample_currencies() -> Seq<Seq<char>> {
    seq!["USD"@, "EUR"@, "CNY"@, "RUB"@, "TRY"@]
}

/// The builder of a fixed sample graph of five currencies.
pub struct GraphBuilder {}

impl GraphBuilder {
    /// The builder of the sample graph.
    pub fn new() -> (r: Self) {
        GraphBuilder {  }
    }

    /// The numbering of the sample graph: USD, EUR, CNY, RUB and TRY are 0 to 4.
    pub fn build(&self) -> (r: CurrencyGraph)
        ensures
            r.numbers() == numbering(sample_currencies()),
            r.names() == naming(sample_currencies()),
            r.dimension() == 5,
    {
        let currencies = vec![
            String::from_str("USD"),
            String::from_str("EUR"),
            String::from_str("CNY"),
            String::from_str("RUB"),
            String::from_str("TRY"),
        ];
        assert(texts(currencies@) =~= sample_currencies());
        CurrencyGraph::new(&currencies)
    }
}

/// The builder of a graph of the rates between a list of currencies on one day.
pub struct CurrencyGraphBuilder {
    currencies: Vec<String>,
    date: Date,
}

impl CurrencyGraphBuilder {
    #[verifier::type_invariant]
    spec fn date_is_real(self) -> bool {
        self.date.valid()
    }

    /// The currencies of the graph to build.
    pub closed spec fn currency_list(self) -> Seq<Seq<char>> {
        texts(self.currencies@)
    }

    /// The day whose rates the graph holds.
    pub closed spec fn day(self) -> Date {
        self.date
    }

    /// A builder with no currencies, for the current day in UTC.
    pub fn new() -> (r: Self)
        ensures
            r.currency_list() == Seq::<Seq<char>>::empty(),
            r.day().valid(),
    {
        let r = CurrencyGraphBuilder { currencies: Vec::new(), date: today_utc() };
        assert(r.currency_list() =~= Seq::<Seq<char>>::empty());
        r
    }

    /// Sets the currencies of the graph.
    pub fn set_currencies(&mut self, c: Vec<String>) -> (r: &mut Self)
        ensures
            r.currency_list() == texts(c@),
            r.day() == old(self).day(),
            *final(self) == *final(r),
    {
        proof {
            use_type_invariant(&*self);
        }
        self.currencies = c;
        self
    }

    /// Sets the day whose rates the graph holds.
    pub fn set_date(&mut self, date: Date) -> (r: &mut Self)
        requires
            date.valid(),
        ensures
            r.currency_list() == old(self).currency_list(),
            r.day() == date,
            *final(self) == *final(r),
    {
        self.date = date;
        self
    }

    /// The currencies of the graph to build.
    pub fn currencies(&self) -> (r: &Vec<String>)
        ensures
            texts(r@) == self.currency_list(),
    {
        &self.currencies
    }

    /// The day whose rates the graph holds.
    pub fn date(&self) -> (r: Date)
        ensures
            r == self.day(),
            r.valid(),
    {
        proof {
            use_type_invariant(self);
        }
        self.date
    }

    /// The numbering of the graph to build: its currencies by their positions in the list.
    pub fn graph(&self) -> (r: CurrencyGraph)
        ensures
            r.numbers() == numbering(self.currency_list()),
            r.names() == naming(self.currency_list()),
            r.dimension() == self.currency_list().len(),
    {
        CurrencyGraph::new(&self.currencies)
    }
}

} // verus!
