use vstd::prelude::*;
use indexmap::IndexMap;
use crate::types::{Order, Side};

verus! {

#[verifier::external_type_specification]
#[verifier::external_body]
#[verifier::reject_recursive_types(K)]
#[verifier::reject_recursive_types(V)]
#[verifier::reject_recursive_types(S)]
pub struct ExIndexMap<K, V, S>(IndexMap<K, V, S>);

/// What a price index holds: the queue of resting orders at each price.
pub uninterp spec fn level_map(m: IndexMap<u64, Vec<Order>>) -> Map<u64, Seq<Order>>;

/// Relies on IndexMap::new: a new map holds no entry.
#[verifier::external_body]
fn levels_new() -> (r: IndexMap<u64, Vec<Order>>)
    ensures
        level_map(r).dom() == Set::<u64>::empty(),
{
    IndexMap::new()
}

/// Relies on IndexMap::shift_remove: removes the entry of `p` and hands
/// back its value, or `None` where there was none.
#[verifier::external_body]
fn levels_take(m: &mut IndexMap<u64, Vec<Order>>, p: u64) -> (r: Option<Vec<Order>>)
    ensures
        level_map(*final(m)) == level_map(*old(m)).remove(p),
        r matches Some(v) ==> level_map(*old(m)).contains_key(p) && v@ == level_map(*old(m))[p],
        r is None ==> !level_map(*old(m)).contains_key(p),
{
    m.shift_remove(&p)
}

/// Relies on IndexMap::insert: afterwards `p` maps to `v`.
#[verifier::external_body]
fn levels_put(m: &mut IndexMap<u64, Vec<Order>>, p: u64, v: Vec<Order>)
    ensures
        level_map(*final(m)) == level_map(*old(m)).insert(p, v@),
{
    m.insert(p, v);
}

/// Relies on IndexMap::get: a copy of the value at `p`, or `None`.
#[verifier::external_body]
fn levels_get(m: &IndexMap<u64, Vec<Order>>, p: u64) -> (r: Option<Vec<Order>>)
    ensures
        r matches Some(v) ==> level_map(*m).contains_key(p) && v@ == level_map(*m)[p],
        r is None ==> !level_map(*m).contains_key(p),
{
    m.get(&p).cloned()
}

/// `p` is the most aggressive price of `m` for resting orders of side
/// `side`: the highest for buys, the lowest for sells.
pub open spec fn is_best(m: Map<u64, Seq<Order>>, side: Side, p: u64) -> bool {
    &&& m.contains_key(p)
    &&& forall|q: u64| #[trigger] m.contains_key(q) ==> match side {
        Side::Buy => q <= p,
        Side::Sell => p <= q,
    }
}

/// The most aggressive price of a non-empty side.
pub open spec fn best_price(m: Map<u64, Seq<Order>>, side: Side) -> u64 {
    choose|p: u64| is_best(m, side, p)
}

/// A side with finitely many levels, and at least one, has a most
/// aggressive price.
pub proof fn lemma_best_exists(m: Map<u64, Seq<Order>>, side: Side)
    requires
        m.dom().finite(),
        m.dom() != Set::<u64>::empty(),
    ensures
        is_best(m, side, best_price(m, side)),
    decreases m.dom().len(),
{
    let x = choose|x: u64| m.dom().contains(x);
    if !m.dom().contains(x) {
        assert(m.dom() =~= Set::<u64>::empty());
    }
    let m2 = m.remove(x);
    assert(m2.dom() =~= m.dom().remove(x));
    if m2.dom() == Set::<u64>::empty() {
        assert forall|q: u64| #[trigger] m.contains_key(q) implies q == x by {
            if q != x {
                assert(m2.dom().contains(q));
            }
        }
        assert(is_best(m, side, x));
    } else {
        lemma_best_exists(m2, side);
        let y = best_price(m2, side);
        let better = match side {
            Side::Buy => x > y,
            Side::Sell => x < y,
        };
        if better {
            assert(is_best(m, side, x)) by {
                assert forall|q: u64| #[trigger] m.contains_key(q) implies match side {
                    Side::Buy => q <= x,
                    Side::Sell => x <= q,
                } by {
                    if q != x {
                        assert(m2.contains_key(q));
                    }
                }
            }
        } else {
            assert(is_best(m, side, y)) by {
                assert forall|q: u64| #[trigger] m.contains_key(q) implies match side {
                    Side::Buy => q <= y,
                    Side::Sell => y <= q,
                } by {
                    if q != x {
                        assert(m2.contains_key(q));
                    }
                }
            }
        }
    }
}

/// The side after `o` is appended to the back of the level at its price.
pub open spec fn rest_spec(m: Map<u64, Seq<Order>>, o: Order) -> Map<u64, Seq<Order>> {
    if m.contains_key(o.price) {
        m.insert(o.price, m[o.price].push(o))
    } else {
        m.insert(o.price, seq![o])
    }
}

/// The level after its front order has traded `t`: the order stays in front
/// with what is left, or leaves when nothing is.
pub open spec fn fill_front(level: Seq<Order>, t: u32) -> Seq<Order> {
    if level[0].qty > t {
        level.update(0, Order { qty: (level[0].qty - t) as u32, ..level[0] })
    } else {
        level.drop_first()
    }
}

/// The side after the front order at `p` has traded `t`; a level left empty
/// is gone.
pub open spec fn after_fill(m: Map<u64, Seq<Order>>, p: u64, t: u32) -> Map<u64, Seq<Order>> {
    let l = fill_front(m[p], t);
    if l.len() == 0 {
        m.remove(p)
    } else {
        m.insert(p, l)
    }
}

/// A well-formed side: every level is non-empty and holds live orders of
/// this side at its own price, and every price with a level is listed
/// exactly once in the price index.
pub open spec fn levels_wf(m: Map<u64, Seq<Order>>, side: Side) -> bool {
    forall|p: u64| #[trigger] m.contains_key(p) ==> {
        &&& m[p].len() > 0
        &&& forall|k: int| 0 <= k < m[p].len() ==> {
            &&& (#[trigger] m[p][k]).qty > 0
            &&& m[p][k].price == p
            &&& m[p][k].side == side
        }
    }
}

/// Inserts `p` into the strictly ascending `v`, which does not hold it yet.
fn insert_sorted(v: &mut Vec<u64>, p: u64)
    requires
        forall|i: int, j: int| 0 <= i < j < old(v)@.len() ==> old(v)@[i] < old(v)@[j],
        !old(v)@.contains(p),
    ensures
        forall|i: int, j: int| 0 <= i < j < final(v)@.len() ==> final(v)@[i] < final(v)@[j],
        forall|q: u64| final(v)@.contains(q) <==> (old(v)@.contains(q) || q == p),
{
    let mut i: usize = 0;
    while i < v.len() && v[i] < p
        invariant
            i <= v@.len(),
            forall|k: int| 0 <= k < i ==> v@[k] < p,
        decreases v@.len() - i,
    {
        i = i + 1;
    }
    let ghost before = v@;
    assert(i < before.len() ==> before[i as int] != p);
    v.insert(i, p);
    assert(v@[i as int] == p);
    assert forall|k: int| 0 <= k < v@.len() && k != i implies #[trigger] v@[k] == (if k < i { before[k] } else { before[k - 1] }) by {}
    assert forall|q: u64| v@.contains(q) <==> (before.contains(q) || q == p) by {
        if v@.contains(q) {
            let k = choose|k: int| 0 <= k < v@.len() && v@[k] == q;
            if k < i {
                assert(before[k] == q);
            } else if k > i {
                assert(before[k - 1] == q);
            }
        }
        if before.contains(q) {
            let k = choose|k: int| 0 <= k < before.len() && before[k] == q;
            if k < i {
                assert(v@[k] == q);
            } else {
                assert(v@[k + 1] == q);
            }
        }
    }
}

/// The resting orders of one side: a price → queue index and, in lockstep,
/// the set of prices with liquidity kept in ascending order.
pub struct SideBook {
    side: Side,
    levels: IndexMap<u64, Vec<Order>>,
    prices: Vec<u64>,
}

impl View for SideBook {
    type V = Map<u64, Seq<Order>>;

    closed spec fn view(&self) -> Map<u64, Seq<Order>> {
        level_map(self.levels)
    }
}

impl SideBook {
    /// The side of every order resting here.
    pub closed spec fn side(&self) -> Side {
        self.side
    }

    /// The listed prices, in ascending order.
    pub closed spec fn price_index(&self) -> Seq<u64> {
        self.prices@
    }

    /// The price index lists exactly the prices that have a level, each
    /// once, and every level is well formed.
    pub open spec fn wf(&self) -> bool {
        &&& levels_wf(self@, self.side())
        &&& forall|i: int, j: int| 0 <= i < j < self.price_index().len()
            ==> self.price_index()[i] < self.price_index()[j]
        &&& forall|p: u64| self@.contains_key(p) <==> self.price_index().contains(p)
    }

    /// A well-formed side has finitely many levels.
    pub proof fn lemma_finite(&self)
        requires
            self.wf(),
        ensures
            self@.dom().finite(),
    {
        vstd::seq_lib::seq_to_set_is_finite(self.price_index());
        assert(self@.dom() =~= self.price_index().to_set());
    }

    /// An empty side for orders of side `side`.
    pub fn new(side: Side) -> (r: Self)
        ensures
            r.wf(),
            r.side() == side,
            r@.dom() == Set::<u64>::empty(),
    {
        let r = SideBook { side, levels: levels_new(), prices: Vec::new() };
        assert(r.price_index() =~= Seq::<u64>::empty());
        assert(r@.dom() =~= Set::<u64>::empty());
        r
    }

    /// The most aggressive price with liquidity, or `None` on an empty side.
    pub fn best(&self) -> (r: Option<u64>)
        requires
            self.wf(),
        ensures
            r is None <==> self@.dom() == Set::<u64>::empty(),
            r matches Some(p) ==> is_best(self@, self.side(), p),
    {
        let n = self.prices.len();
        if n == 0 {
            assert forall|q: u64| !self@.dom().contains(q) by {
                if self@.contains_key(q) {
                    assert(self.price_index().contains(q));
                }
            }
            assert(self@.dom() =~= Set::<u64>::empty());
            return None;
        }
        let idx: usize = match self.side {
            Side::Buy => n - 1,
            Side::Sell => 0,
        };
        let p = self.prices[idx];
        assert(self.price_index()[idx as int] == p);
        assert(self.price_index().contains(p));
        assert forall|q: u64| #[trigger] self@.contains_key(q) implies match self.side() {
            Side::Buy => q <= p,
            Side::Sell => p <= q,
        } by {
            assert(self.price_index().contains(q));
            let k = choose|k: int| 0 <= k < self.price_index().len() && self.price_index()[k] == q;
            if k != idx {
                assert(self.price_index()[k] == q);
            }
        }
        assert(self@.contains_key(p));
        assert(self@.dom() != Set::<u64>::empty()) by {
            assert(self@.dom().contains(p));
        }
        Some(p)
    }

    /// Trades up to `qty` against the front order of the best level `p`;
    /// returns the quantity traded.
    pub fn fill_best(&mut self, p: u64, qty: u32) -> (t: u32)
        requires
            old(self).wf(),
            is_best(old(self)@, old(self).side(), p),
            qty > 0,
        ensures
            final(self).wf(),
            final(self).side() == old(self).side(),
            t > 0,
            t == (if qty < old(self)@[p][0].qty { qty } else { old(self)@[p][0].qty }),
            final(self)@ == after_fill(old(self)@, p, t),
    {
        let ghost m0 = self@;
        let ghost side = self.side;
        let ghost ps = self.price_index();
        assert(m0.contains_key(p));
        assert(ps.contains(p));
        let taken = levels_take(&mut self.levels, p);
        let mut level = taken.unwrap();
        assert(level@.len() > 0);
        let front = level[0];
        assert(front == m0[p][0]);
        let t: u32 = if qty < front.qty { qty } else { front.qty };
        if front.qty > t {
            let left = Order {
                id: front.id,
                side: front.side,
                price: front.price,
                qty: front.qty - t,
                timestamp: front.timestamp,
            };
            level.set(0, left);
        } else {
            level.remove(0);
        }
        assert(level@ =~= fill_front(m0[p], t));
        assert forall|k: int| 0 <= k < level@.len() implies {
            &&& (#[trigger] level@[k]).qty > 0
            &&& level@[k].price == p
            &&& level@[k].side == side
        } by {
            if front.qty <= t {
                assert(level@[k] == m0[p][k + 1]);
            } else if k > 0 {
                assert(level@[k] == m0[p][k]);
            }
        }
        if level.len() == 0 {
            let ghost k = choose|k: int| 0 <= k < ps.len() && ps[k] == p;
            match self.side {
                Side::Buy => {
                    assert(ps.contains(ps[ps.len() - 1]));
                    assert(m0.contains_key(ps[ps.len() - 1]));
                    assert(k == ps.len() - 1);
                    self.prices.pop();
                    assert(self.prices@ =~= ps.subrange(0, ps.len() - 1));
                },
                Side::Sell => {
                    assert(ps.contains(ps[0]));
                    assert(m0.contains_key(ps[0]));
                    assert(k == 0);
                    self.prices.remove(0);
                    assert(self.prices@ =~= ps.subrange(1, ps.len() as int));
                },
            }
            assert forall|q: u64| self@.contains_key(q) <==> self.price_index().contains(q) by {
                if self.price_index().contains(q) {
                    let j = choose|j: int| 0 <= j < self.price_index().len() && self.price_index()[j] == q;
                    match side {
                        Side::Buy => assert(ps[j] == q && j != k),
                        Side::Sell => assert(ps[j + 1] == q && j + 1 != k),
                    }
                    assert(ps.contains(q));
                    assert(m0.contains_key(q));
                    assert(q != p);
                }
                if m0.contains_key(q) && q != p {
                    assert(ps.contains(q));
                    let j = choose|j: int| 0 <= j < ps.len() && ps[j] == q;
                    assert(j != k);
                    match side {
                        Side::Buy => assert(self.price_index()[j] == q),
                        Side::Sell => assert(self.price_index()[j - 1] == q),
                    }
                }
            }
        } else {
            let ghost l = level@;
            levels_put(&mut self.levels, p, level);
            assert(self@ =~= m0.insert(p, l));
        }
        t
    }

    /// Appends `o` to the back of the level at its price, listing the price
    /// when the level is new.
    pub fn rest(&mut self, o: Order)
        requires
            old(self).wf(),
            o.side == old(self).side(),
            o.qty > 0,
        ensures
            final(self).wf(),
            final(self).side() == old(self).side(),
            final(self)@ == rest_spec(old(self)@, o),
    {
        let ghost m0 = self@;
        let ghost ps = self.price_index();
        let taken = levels_take(&mut self.levels, o.price);
        match taken {
            Some(mut v) => {
                v.push(o);
                levels_put(&mut self.levels, o.price, v);
                assert(self@ =~= rest_spec(m0, o));
            },
            None => {
                let v = vec![o];
                assert(v@ =~= seq![o]);
                levels_put(&mut self.levels, o.price, v);
                assert(self@ =~= rest_spec(m0, o));
                assert(self.prices@ == ps);
                assert(!ps.contains(o.price));
                insert_sorted(&mut self.prices, o.price);
            },
        }
        assert forall|p: u64| #[trigger] self@.contains_key(p) implies self@[p].len() > 0 && forall|k: int| 0 <= k < self@[p].len() ==> {
            &&& (#[trigger] self@[p][k]).qty > 0
            &&& self@[p][k].price == p
            &&& self@[p][k].side == self.side()
        } by {
            if p == o.price && m0.contains_key(p) {
                assert forall|k: int| 0 <= k < self@[p].len() implies {
                    &&& (#[trigger] self@[p][k]).qty > 0
                    &&& self@[p][k].price == p
                    &&& self@[p][k].side == self.side()
                } by {
                    if k < m0[p].len() {
                        assert(self@[p][k] == m0[p][k]);
                    }
                }
            }
        }
    }

    /// Every level, from the most to the least aggressive price, each with
    /// its orders in time priority.
    pub fn depth(&self) -> (r: Vec<(u64, Vec<Order>)>)
        requires
            self.wf(),
        ensures
            depth_spec(self@, self.side(), r@.map_values(|e: (u64, Vec<Order>)| (e.0, e.1@))),
    {
        let n = self.prices.len();
        let mut r: Vec<(u64, Vec<Order>)> = Vec::new();
        let mut k: usize = 0;
        while k < n
            invariant
                self.wf(),
                n == self.price_index().len(),
                k <= n,
                r@.len() == k,
                forall|i: int| 0 <= i < k ==> {
                    &&& #[trigger] r@[i].0 == self.price_index()[index_at(self.side(), n as int, i)]
                    &&& self@.contains_key(r@[i].0)
                    &&& r@[i].1@ == self@[r@[i].0]
                },
            decreases n - k,
        {
            let idx: usize = match self.side {
                Side::Buy => n - 1 - k,
                Side::Sell => k,
            };
            let p = self.prices[idx];
            assert(self.price_index().contains(p)) by {
                assert(self.price_index()[idx as int] == p);
            }
            let level = levels_get(&self.levels, p).unwrap();
            r.push((p, level));
            k = k + 1;
        }
        let ghost rv = r@.map_values(|e: (u64, Vec<Order>)| (e.0, e.1@));
        let ghost ps = self.price_index();
        assert forall|i: int| 0 <= i < rv.len() implies #[trigger] self@.contains_key(rv[i].0) && rv[i].1 == self@[rv[i].0] by {
            assert(rv[i] == (r@[i].0, r@[i].1@));
        }
        assert forall|q: u64| #[trigger] self@.contains_key(q) implies exists|i: int| 0 <= i < rv.len() && rv[i].0 == q by {
            assert(ps.contains(q));
            let j = choose|j: int| 0 <= j < ps.len() && ps[j] == q;
            let i = match self.side() {
                Side::Buy => n - 1 - j,
                Side::Sell => j,
            };
            assert(r@[i].0 == q);
            assert(rv[i].0 == q);
        }
        assert forall|i: int, j: int| #![trigger rv[i], rv[j]] 0 <= i < j < rv.len() implies
            (match self.side() {
                Side::Buy => rv[i].0 > rv[j].0,
                Side::Sell => rv[i].0 < rv[j].0,
            }) by {
            assert(r@[i].0 == ps[index_at(self.side(), n as int, i)]);
            assert(r@[j].0 == ps[index_at(self.side(), n as int, j)]);
        }
        r
    }
}

/// Where the `i`-th level in order of aggressiveness sits in an ascending
/// index of `n` prices.
pub open spec fn index_at(side: Side, n: int, i: int) -> int {
    match side {
        Side::Buy => n - 1 - i,
        Side::Sell => i,
    }
}

/// `d` lists each level of `m` once, with its orders, from the most to the
/// least aggressive price for resting orders of side `side`.
pub open spec fn depth_spec(m: Map<u64, Seq<Order>>, side: Side, d: Seq<(u64, Seq<Order>)>) -> bool {
    &&& forall|i: int| 0 <= i < d.len() ==> #[trigger] m.contains_key(d[i].0) && d[i].1 == m[d[i].0]
    &&& forall|i: int, j: int| #![trigger d[i], d[j]] 0 <= i < j < d.len() ==> (match side {
        Side::Buy => d[i].0 > d[j].0,
        Side::Sell => d[i].0 < d[j].0,
    })
    &&& forall|q: u64| #[trigger] m.contains_key(q) ==> exists|i: int| 0 <= i < d.len() && d[i].0 == q
}

} // verus!
