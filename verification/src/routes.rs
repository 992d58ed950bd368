//! The bookkeeping of conversion routes: the chain of exchanges that leads to each currency,
//! and the stretches of a route whose combined rate is compared with the direct one.

use vstd::prelude::*;

verus! {

/// One exchange of a route, from the currency numbered `from` to the one numbered `to`.
#[derive(Clone, Copy, Debug, PartialEq, Eq, Structural)]
pub struct Hop {
    pub from: usize,
    pub to: usize,
}

/// The chains of a table hold only currencies of the table, and a chain that is not empty ends
/// at the currency it belongs to.
pub open spec fn chains_well_formed(c: Seq<Seq<Hop>>) -> bool {
    forall|v: int|
        0 <= v < c.len() ==> {
            &&& (#[trigger] c[v]).len() > 0 ==> c[v].last().to == v
            &&& forall|k: int|
                0 <= k < c[v].len() ==> (#[trigger] c[v][k]).from < c.len() && c[v][k].to
                    < c.len()
        }
}

/// The table after a cheaper way to `i` through `min` is found: the chain of `i` becomes the
/// chain of `min` (or stays as it was, when `min` has none) followed by the exchange from `min`
/// to `i`.
pub open spec fn relaxed(c: Seq<Seq<Hop>>, min: usize, i: usize) -> Seq<Seq<Hop>> {
    let base = if c[min as int].len() > 0 {
        c[min as int]
    } else {
        c[i as int]
    };
    c.update(i as int, base.push(Hop { from: min, to: i }))
}

/// A chain of exchanges that starts at `source`, each exchange leaving where the one before
/// arrived.
pub open spec fn is_walk_from(hops: Seq<Hop>, source: usize) -> bool {
    hops.len() > 0 ==> {
        &&& hops[0].from == source
        &&& forall|k: int| 0 <= k < hops.len() - 1 ==> (#[trigger] hops[k]).to == hops[k + 1].from
    }
}

/// Every chain of the table is a walk from `source`.
pub open spec fn all_walks_from(c: Seq<Seq<Hop>>, source: usize) -> bool {
    forall|v: int| 0 <= v < c.len() ==> is_walk_from(#[trigger] c[v], source)
}

/// A relaxation keeps every chain a walk from the source, when it extends a chain that is not
/// empty, or starts the chain of `i` at the source itself.
pub proof fn lemma_relax_keeps_walks(c: Seq<Seq<Hop>>, source: usize, min: usize, i: usize)
    requires
        min < c.len(),
        i < c.len(),
        chains_well_formed(c),
        all_walks_from(c, source),
        c[min as int].len() > 0 || (min == source && c[i as int].len() == 0),
    ensures
        all_walks_from(relaxed(c, min, i), source),
        chains_well_formed(relaxed(c, min, i)),
{
    let r = relaxed(c, min, i);
    let base = if c[min as int].len() > 0 {
        c[min as int]
    } else {
        c[i as int]
    };
    let chain = base.push(Hop { from: min, to: i });
    assert(r[i as int] == chain);
    assert(is_walk_from(base, source));
    assert(is_walk_from(chain, source)) by {
        if base.len() > 0 {
            assert(base.last().to == min);
            assert forall|k: int| 0 <= k < chain.len() - 1 implies (#[trigger] chain[k]).to
                == chain[k + 1].from by {
                if k < base.len() - 1 {
                    assert(chain[k] == base[k]);
                    assert(chain[k + 1] == base[k + 1]);
                }
            }
        }
    }
    assert forall|v: int| 0 <= v < r.len() implies is_walk_from(#[trigger] r[v], source) by {
        if v != i {
            assert(r[v] == c[v]);
        }
    }
    lemma_relaxed_well_formed(c, min, i);
}

/// What a relaxation through `min` to `i` does: when `min` has a chain, the chain of `i` becomes
/// exactly that chain followed by the one exchange from `min` to `i`; when it has none, the old
/// chain of `i` is kept and that exchange is added after it. Every other chain stays as it was,
/// and a table without exchanges from a currency to itself keeps having none when `min != i`.
pub proof fn lemma_relax_extends_chain_of_min(c: Seq<Seq<Hop>>, min: usize, i: usize)
    requires
        min < c.len(),
        i < c.len(),
    ensures
        relaxed(c, min, i).len() == c.len(),
        forall|v: int| 0 <= v < c.len() && v != i ==> #[trigger] relaxed(c, min, i)[v] == c[v],
        c[min as int].len() > 0 ==> {
            let chain = relaxed(c, min, i)[i as int];
            &&& chain.len() == c[min as int].len() + 1
            &&& forall|k: int| 0 <= k < c[min as int].len() ==> #[trigger] chain[k] == c[min as int][k]
            &&& chain[chain.len() - 1] == Hop { from: min, to: i }
        },
        c[min as int].len() == 0 ==> {
            let chain = relaxed(c, min, i)[i as int];
            &&& chain.len() == c[i as int].len() + 1
            &&& forall|k: int| 0 <= k < c[i as int].len() ==> #[trigger] chain[k] == c[i as int][k]
            &&& chain[chain.len() - 1] == Hop { from: min, to: i }
        },
        min != i && (forall|v: int, k: int|
            0 <= v < c.len() && 0 <= k < c[v].len() ==> (#[trigger] c[v][k]).from != c[v][k].to)
            ==> forall|v: int, k: int|
            0 <= v < c.len() && 0 <= k < relaxed(c, min, i)[v].len() ==> (#[trigger] relaxed(
                c,
                min,
                i,
            )[v][k]).from != relaxed(c, min, i)[v][k].to,
{
    let r = relaxed(c, min, i);
    let base = if c[min as int].len() > 0 {
        c[min as int]
    } else {
        c[i as int]
    };
    if min != i && (forall|v: int, k: int|
        0 <= v < c.len() && 0 <= k < c[v].len() ==> (#[trigger] c[v][k]).from != c[v][k].to) {
        assert forall|v: int, k: int|
            0 <= v < c.len() && 0 <= k < r[v].len() implies (#[trigger] r[v][k]).from
            != r[v][k].to by {
            if v == i {
                if k < base.len() {
                    assert(r[v][k] == base[k]);
                    if c[min as int].len() > 0 {
                        assert(base[k] == c[min as int][k]);
                    } else {
                        assert(base[k] == c[i as int][k]);
                    }
                }
            } else {
                assert(r[v] == c[v]);
            }
        }
    }
}

/// The chains of exchanges found so far towards each currency of a graph.
pub struct Chains {
    chains: Vec<Vec<Hop>>,
}

impl Chains {
    #[verifier::type_invariant]
    spec fn well_formed(self) -> bool {
        chains_well_formed(self@)
    }

    /// A table of `n` empty chains.
    pub fn new(n: usize) -> (r: Chains)
        ensures
            r@ == Seq::new(n as nat, |i: int| Seq::<Hop>::empty()),
    {
        let mut chains: Vec<Vec<Hop>> = Vec::new();
        for i in 0..n
            invariant
                chains.len() == i,
                forall|k: int| 0 <= k < i ==> (#[trigger] chains@[k])@.len() == 0,
        {
            chains.push(Vec::new());
        }
        let r = Chains { chains };
        assert forall|k: int| 0 <= k < n implies r@[k] =~= Seq::<Hop>::empty() by {
            assert(r@[k] == chains@[k]@);
        }
        assert(r@ =~= Seq::new(n as nat, |i: int| Seq::<Hop>::empty()));
        r
    }

    /// The number of chains.
    pub fn len(&self) -> (r: usize)
        ensures
            r == self@.len(),
    {
        self.chains.len()
    }

    /// Records a cheaper way to `i` through `min`.
    pub fn relax(&mut self, min: usize, i: usize)
        requires
            min < old(self)@.len(),
            i < old(self)@.len(),
        ensures
            final(self)@ == relaxed(old(self)@, min, i),
    {
        proof {
            use_type_invariant(&*self);
        }
        let source = if self.chains[min].len() > 0 {
            min
        } else {
            i
        };
        let source_chain: &Vec<Hop> = &self.chains[source];
        assert(source_chain@ == self@[source as int]);
        let mut chain: Vec<Hop> = Vec::new();
        let m = source_chain.len();
        for k in 0..m
            invariant
                m == source_chain@.len(),
                chain@ == source_chain@.take(k as int),
        {
            chain.push(source_chain[k]);
            assert(chain@ =~= source_chain@.take(k + 1));
        }
        assert(source_chain@.take(m as int) =~= source_chain@);
        chain.push(Hop { from: min, to: i });
        let ghost expected = relaxed(self@, min, i);
        proof {
            lemma_relaxed_well_formed(self@, min, i);
        }
        let mut chains: Vec<Vec<Hop>> = Vec::new();
        std::mem::swap(&mut chains, &mut self.chains);
        chains.set(i, chain);
        assert(chains@.map_values(|c: Vec<Hop>| c@) =~= expected);
        self.chains = chains;
    }

    /// The chain of currency `v`; when it is not empty it ends at `v`.
    pub fn chain(&self, v: usize) -> (r: &Vec<Hop>)
        requires
            v < self@.len(),
        ensures
            r@ == self@[v as int],
            r@.len() > 0 ==> r@.last().to == v,
    {
        proof {
            use_type_invariant(self);
            assert(self@[v as int] == self.chains@[v as int]@);
        }
        &self.chains[v]
    }

    /// All the chains, by currency.
    pub fn into_chains(self) -> (r: Vec<Vec<Hop>>)
        ensures
            r@.map_values(|c: Vec<Hop>| c@) == self@,
            chains_well_formed(self@),
    {
        proof {
            use_type_invariant(&self);
        }
        let r = self.chains;
        assert(r@.map_values(|c: Vec<Hop>| c@) =~= self@);
        r
    }
}

impl View for Chains {
    type V = Seq<Seq<Hop>>;

    closed spec fn view(&self) -> Seq<Seq<Hop>> {
        self.chains@.map_values(|c: Vec<Hop>| c@)
    }
}

/// A relaxation keeps the table well formed.
proof fn lemma_relaxed_well_formed(c: Seq<Seq<Hop>>, min: usize, i: usize)
    requires
        min < c.len(),
        i < c.len(),
        chains_well_formed(c),
    ensures
        chains_well_formed(relaxed(c, min, i)),
{
    let r = relaxed(c, min, i);
    let base = if c[min as int].len() > 0 {
        c[min as int]
    } else {
        c[i as int]
    };
    assert forall|v: int| 0 <= v < r.len() implies {
        &&& (#[trigger] r[v]).len() > 0 ==> r[v].last().to == v
        &&& forall|k: int|
            0 <= k < r[v].len() ==> (#[trigger] r[v][k]).from < r.len() && r[v][k].to < r.len()
    } by {
        if v == i {
            assert forall|k: int| 0 <= k < r[v].len() implies (#[trigger] r[v][k]).from
                < r.len() && r[v][k].to < r.len() by {
                if k < base.len() {
                    assert(r[v][k] == base[k]);
                }
            }
        } else {
            assert(r[v] == c[v]);
        }
    }
}

/// The stretches of a route that start at exchange `a`: from `a` to each later exchange
/// `b < len`, in order.
pub open spec fn segments_from(a: nat, len: nat) -> Seq<(usize, usize)> {
    Seq::new(
        if len > a + 1 {
            (len - a - 1) as nat
        } else {
            0
        },
        |k: int| (a as usize, (a + 1 + k) as usize),
    )
}

/// The stretches that start before exchange `a`, ordered by start and then by end.
pub open spec fn segments_before(a: nat, len: nat) -> Seq<(usize, usize)>
    decreases a,
{
    if a == 0 {
        Seq::empty()
    } else {
        segments_before((a - 1) as nat, len) + segments_from((a - 1) as nat, len)
    }
}

/// The stretches of a route of `len` exchanges, given by their first and last exchange: every
/// pair `(a, b)` with `a < b < len`, ordered by `a` and then by `b`.
pub open spec fn route_segments(len: nat) -> Seq<(usize, usize)> {
    segments_before(len, len)
}

/// The stretches of a route of `len` exchanges whose combined rate is compared with the rate of
/// the direct exchange, in the order in which they are looked at.
pub fn chain_segments(len: usize) -> (r: Vec<(usize, usize)>)
    ensures
        r@ == route_segments(len as nat),
{
    let mut r: Vec<(usize, usize)> = Vec::new();
    for a in 0..len
        invariant
            r@ == segments_before(a as nat, len as nat),
    {
        let ghost before = r@;
        for b in a + 1..len
            invariant
                a < len,
                before == segments_before(a as nat, len as nat),
                r@ == before + segments_from(a as nat, len as nat).take(b - a - 1),
        {
            r.push((a, b));
            assert(r@ =~= before + segments_from(a as nat, len as nat).take(b - a));
        }
        assert(segments_from(a as nat, len as nat).take((len - a - 1) as int) =~= segments_from(
            a as nat,
            len as nat,
        ));
        assert(segments_before((a + 1) as nat, len as nat) == before + segments_from(
            a as nat,
            len as nat,
        ));
    }
    r
}

/// The stretches of a route are exactly the pairs of a first and a later last exchange.
pub proof fn lemma_route_segments(len: nat)
    requires
        len <= usize::MAX,
    ensures
        forall|a: usize, b: usize|
            route_segments(len).contains((a, b)) <==> a < b && (b as nat) < len,
{
    lemma_segments_before(len, len);
}

/// The stretches come in order of their first exchange, and for each first exchange `a` in
/// order of their last: they begin with `(0, 1)`, and each one after the first either keeps the
/// start and ends one exchange later, or starts one exchange later and ends right after its start.
pub proof fn lemma_route_segments_order(len: nat)
    requires
        len <= usize::MAX,
    ensures
        len >= 2 ==> route_segments(len)[0] == (0usize, 1usize),
        forall|k: int|
            0 <= k < route_segments(len).len() - 1 ==> {
                let (a, b) = #[trigger] route_segments(len)[k];
                let (a2, b2) = route_segments(len)[k + 1];
                ||| a2 == a && b2 == b + 1
                ||| a2 == a + 1 && b2 == a2 + 1
            },
{
    lemma_segments_before_order(len, len);
}

proof fn lemma_segments_before_order(a: nat, len: nat)
    requires
        a <= len <= usize::MAX,
    ensures
        a >= 1 && len >= 2 ==> segments_before(a, len)[0] == (0usize, 1usize),
        segments_before(a, len).len() > 0 ==> {
            let s = segments_before(a, len);
            let (x, y) = s[s.len() - 1];
            &&& (x as nat) + 1 == (if a < len {
                a
            } else {
                (len - 1) as nat
            })
            &&& (y as nat) + 1 == len
        },
        forall|k: int|
            0 <= k < segments_before(a, len).len() - 1 ==> {
                let (x, y) = #[trigger] segments_before(a, len)[k];
                let (x2, y2) = segments_before(a, len)[k + 1];
                ||| x2 == x && y2 == y + 1
                ||| x2 == x + 1 && y2 == x2 + 1
            },
    decreases a,
{
    if a > 0 {
        let prev = (a - 1) as nat;
        lemma_segments_before_order(prev, len);
        let left = segments_before(prev, len);
        let row = segments_from(prev, len);
        let all = segments_before(a, len);
        assert(all == left + row);
        if prev == 0 {
            assert(left.len() == 0);
        }
        assert forall|k: int| 0 <= k < all.len() - 1 implies {
            let (x, y) = #[trigger] all[k];
            let (x2, y2) = all[k + 1];
            ||| x2 == x && y2 == y + 1
            ||| x2 == x + 1 && y2 == x2 + 1
        } by {
            if k + 1 < left.len() {
                assert(all[k] == left[k]);
                assert(all[k + 1] == left[k + 1]);
            } else if k + 1 == left.len() {
                assert(all[k] == left[k]);
                assert(all[k + 1] == row[0]);
            } else {
                assert(all[k] == row[k - left.len()]);
                assert(all[k + 1] == row[k + 1 - left.len()]);
            }
        }
        if all.len() > 0 {
            if row.len() > 0 {
                assert(all[all.len() - 1] == row[row.len() - 1]);
            } else {
                assert(all =~= left);
            }
        }
        if len >= 2 && prev > 0 {
            assert(all[0] == left[0]);
        }
    }
}

proof fn lemma_segments_before(a: nat, len: nat)
    requires
        a <= len <= usize::MAX,
    ensures
        forall|x: usize, y: usize|
            segments_before(a, len).contains((x, y)) <==> x < y && (y as nat) < len && (x as nat)
                < a,
    decreases a,
{
    if a > 0 {
        let prev = (a - 1) as nat;
        lemma_segments_before(prev, len);
        let left = segments_before(prev, len);
        let row = segments_from(prev, len);
        let all = segments_before(a, len);
        assert(all == left + row);
        assert forall|x: usize, y: usize|
            all.contains((x, y)) <==> x < y && (y as nat) < len && (x as nat) < a by {
            if all.contains((x, y)) {
                let k = choose|k: int| 0 <= k < all.len() && all[k] == (x, y);
                if k >= left.len() {
                    assert(row[k - left.len()] == (x, y));
                } else {
                    assert(left[k] == (x, y));
                    assert(left.contains((x, y)));
                }
            }
            if x < y && (y as nat) < len && (x as nat) < a {
                if (x as nat) < prev {
                    assert(left.contains((x, y)));
                    let k = choose|k: int| 0 <= k < left.len() && left[k] == (x, y);
                    assert(all[k] == (x, y));
                } else {
                    let k = y - x - 1;
                    assert(row[k] == (x, y));
                    assert(all[left.len() + k] == (x, y));
                }
            }
        }
    }
}

} // verus!
