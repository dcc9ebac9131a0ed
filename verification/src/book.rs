//! The order book itself: construction, update processing, queries and the
//! market-order simulator.

use vstd::prelude::*;

use crate::model::PriceLevel;
use crate::model::applied_update;
use crate::model::updates_result;
use crate::model::entry;
use crate::model::lemma_entry_insert;
use crate::model::lemma_entry_remove;
use crate::model::lemma_entry_update;
use crate::model::lemma_sorted_distinct;
use crate::model::positive_quantities;
use crate::model::pow10;
use crate::model::sorted_by_price;
use crate::model::total_notional;
use crate::model::total_quantity;
use crate::model::consume;
use crate::model::lemma_consume_defined;

verus! {

/// The decimal precision used when a side of the constructor is left unset.
pub const DEFAULT_DECIMALS: u8 = 6;

/// The largest decimal precision a book accepts.
pub const MAX_DECIMALS: u8 = 8;

/// The one fatal error: a requested decimal precision exceeds the cap.
#[derive(Clone, Copy, Debug, PartialEq, Eq, Structural)]
pub struct ConfigurationError;

/// The decimal precision a constructor argument asks for: the given value,
/// or the default when it is absent.
pub open spec fn effective_decimals(d: Option<u8>) -> u8 {
    match d {
        Some(x) => x,
        None => DEFAULT_DECIMALS,
    }
}

/// A two-sided aggregated order book over quantized integers.
///
/// Bids are kept strictly descending by price, asks strictly ascending; each
/// side holds at most one level per price, every level with a positive
/// quantity.
pub struct Orderbook {
    pub bids: Vec<PriceLevel>,
    pub asks: Vec<PriceLevel>,
    pub price_factor: u64,
    pub quantity_factor: u64,
}

impl Orderbook {
    /// The book's structural invariant: each side is strictly ordered in its
    /// consumption direction and stores only positive quantities.
    pub open spec fn wf(&self) -> bool {
        &&& crate::model::sorted_by_price(self.bids@, true)
        &&& crate::model::sorted_by_price(self.asks@, false)
        &&& crate::model::positive_quantities(self.bids@)
        &&& crate::model::positive_quantities(self.asks@)
    }

    /// Builds an empty book with scale factors `10^decimals` per field,
    /// defaulting to six decimals; a precision above the cap fails.
    pub fn new(price_decimals: Option<u8>, quantity_decimals: Option<u8>) -> (r: Result<
        Orderbook,
        ConfigurationError,
    >)
        ensures
            r is Ok <==> (effective_decimals(price_decimals) <= MAX_DECIMALS
                && effective_decimals(quantity_decimals) <= MAX_DECIMALS),
            r matches Ok(b) ==> {
                &&& b.wf()
                &&& b.bids@.len() == 0
                &&& b.asks@.len() == 0
                &&& b.price_factor == pow10(effective_decimals(price_decimals) as nat)
                &&& b.quantity_factor == pow10(effective_decimals(quantity_decimals) as nat)
            },
    {
        let pd: u8 = match price_decimals {
            Some(x) => x,
            None => DEFAULT_DECIMALS,
        };
        let qd: u8 = match quantity_decimals {
            Some(x) => x,
            None => DEFAULT_DECIMALS,
        };
        if pd > MAX_DECIMALS || qd > MAX_DECIMALS {
            return Err(ConfigurationError);
        }
        Ok(Orderbook {
            bids: Vec::new(),
            asks: Vec::new(),
            price_factor: pow10_u64(pd),
            quantity_factor: pow10_u64(qd),
        })
    }

    /// Applies one book update: with `is_snapshot` both sides are cleared
    /// first, then every `(price, quantity)` pair upserts (positive
    /// quantity) or removes (zero quantity) the level at its price, later
    /// pairs overwriting earlier ones.
    pub fn process(&mut self, bids: Vec<(u64, u64)>, asks: Vec<(u64, u64)>, is_snapshot: bool)
        requires
            old(self).wf(),
        ensures
            final(self).wf(),
            final(self).price_factor == old(self).price_factor,
            final(self).quantity_factor == old(self).quantity_factor,
            forall|p: u64| #[trigger] entry(final(self).bids@, p) == updates_result(
                if is_snapshot {
                    None
                } else {
                    entry(old(self).bids@, p)
                },
                bids@,
                p,
            ),
            forall|p: u64| #[trigger] entry(final(self).asks@, p) == updates_result(
                if is_snapshot {
                    None
                } else {
                    entry(old(self).asks@, p)
                },
                asks@,
                p,
            ),
    {
        if is_snapshot {
            self.bids.clear();
            self.asks.clear();
        }
        let ghost bid_base = self.bids@;
        let ghost ask_base = self.asks@;
        proof {
            assert(bids@.take(0) =~= Seq::<(u64, u64)>::empty());
            assert(asks@.take(0) =~= Seq::<(u64, u64)>::empty());
        }
        let mut i: usize = 0;
        while i < bids.len()
            invariant
                i <= bids@.len(),
                sorted_by_price(self.bids@, true),
                positive_quantities(self.bids@),
                self.asks@ == ask_base,
                sorted_by_price(ask_base, false),
                positive_quantities(ask_base),
                self.price_factor == old(self).price_factor,
                self.quantity_factor == old(self).quantity_factor,
                forall|p: u64| #[trigger] entry(self.bids@, p) == updates_result(
                    entry(bid_base, p),
                    bids@.take(i as int),
                    p,
                ),
            decreases bids@.len() - i,
        {
            let ghost prev = self.bids@;
            let pair = bids[i];
            upsert_level(&mut self.bids, pair.0, pair.1, true);
            proof {
                assert forall|p: u64| #[trigger] entry(self.bids@, p) == updates_result(
                    entry(bid_base, p),
                    bids@.take(i + 1),
                    p,
                ) by {
                    assert(bids@.take(i + 1).last() == bids@[i as int]);
                    assert(bids@.take(i + 1).drop_last() =~= bids@.take(i as int));
                    assert(entry(self.bids@, p) == applied_update(entry(prev, p), pair.0, pair.1, p));
                }
            }
            i = i + 1;
        }
        proof {
            assert(bids@.take(bids@.len() as int) =~= bids@);
        }
        let ghost done_bids = self.bids@;
        let mut k: usize = 0;
        while k < asks.len()
            invariant
                k <= asks@.len(),
                sorted_by_price(self.asks@, false),
                positive_quantities(self.asks@),
                self.bids@ == done_bids,
                sorted_by_price(done_bids, true),
                positive_quantities(done_bids),
                self.price_factor == old(self).price_factor,
                self.quantity_factor == old(self).quantity_factor,
                forall|p: u64| #[trigger] entry(self.asks@, p) == updates_result(
                    entry(ask_base, p),
                    asks@.take(k as int),
                    p,
                ),
            decreases asks@.len() - k,
        {
            let ghost prev = self.asks@;
            let pair = asks[k];
            upsert_level(&mut self.asks, pair.0, pair.1, false);
            proof {
                assert forall|p: u64| #[trigger] entry(self.asks@, p) == updates_result(
                    entry(ask_base, p),
                    asks@.take(k + 1),
                    p,
                ) by {
                    assert(asks@.take(k + 1).last() == asks@[k as int]);
                    assert(asks@.take(k + 1).drop_last() =~= asks@.take(k as int));
                    assert(entry(self.asks@, p) == applied_update(entry(prev, p), pair.0, pair.1, p));
                }
            }
            k = k + 1;
        }
        proof {
            assert(asks@.take(asks@.len() as int) =~= asks@);
        }
    }

    /// The top-of-book bid: the highest-priced bid level as
    /// `(price, quantity)`, or `None` on an empty side.
    pub fn get_best_bid(&self) -> (r: Option<(u64, u64)>)
        ensures
            r == (if self.bids@.len() == 0 {
                None::<(u64, u64)>
            } else {
                Some((self.bids@[0].price, self.bids@[0].quantity))
            }),
    {
        if self.bids.len() == 0 {
            None
        } else {
            let lvl = self.bids[0];
            Some((lvl.price, lvl.quantity))
        }
    }

    /// The top-of-book ask: the lowest-priced ask level as
    /// `(price, quantity)`, or `None` on an empty side.
    pub fn get_best_ask(&self) -> (r: Option<(u64, u64)>)
        ensures
            r == (if self.asks@.len() == 0 {
                None::<(u64, u64)>
            } else {
                Some((self.asks@[0].price, self.asks@[0].quantity))
            }),
    {
        if self.asks.len() == 0 {
            None
        } else {
            let lvl = self.asks[0];
            Some((lvl.price, lvl.quantity))
        }
    }

    /// The bid levels, best (highest price) first.
    pub fn get_bids(&self) -> (r: &Vec<PriceLevel>)
        ensures
            r@ == self.bids@,
    {
        &self.bids
    }

    /// The ask levels, best (lowest price) first.
    pub fn get_asks(&self) -> (r: &Vec<PriceLevel>)
        ensures
            r@ == self.asks@,
    {
        &self.asks
    }

    /// Applies one delta update to one side: `side == 1` targets the bids,
    /// any other value the asks; the untouched side is left as it was.
    pub fn add(&mut self, side: u8, price: u64, quantity: u64)
        requires
            old(self).wf(),
        ensures
            final(self).wf(),
            final(self).price_factor == old(self).price_factor,
            final(self).quantity_factor == old(self).quantity_factor,
            side == 1 ==> {
                &&& final(self).asks@ == old(self).asks@
                &&& forall|p: u64| #[trigger] entry(final(self).bids@, p) == applied_update(
                    entry(old(self).bids@, p),
                    price,
                    quantity,
                    p,
                )
            },
            side != 1 ==> {
                &&& final(self).bids@ == old(self).bids@
                &&& forall|p: u64| #[trigger] entry(final(self).asks@, p) == applied_update(
                    entry(old(self).asks@, p),
                    price,
                    quantity,
                    p,
                )
            },
    {
        if side == 1 {
            upsert_level(&mut self.bids, price, quantity, true);
        } else {
            upsert_level(&mut self.asks, price, quantity, false);
        }
    }

    /// Full-depth quantity-weighted average bid price, as the exact integer
    /// ratio `(sum of price * quantity, sum of quantity)`; `None` when the
    /// side is empty.
    pub fn get_weighted_bid(&self) -> (r: Option<(u128, u128)>)
        requires
            total_notional(self.bids@) <= u128::MAX,
        ensures
            r == (if self.bids@.len() == 0 {
                None::<(u128, u128)>
            } else {
                Some((total_notional(self.bids@) as u128, total_quantity(self.bids@) as u128))
            }),
    {
        if self.bids.len() == 0 {
            None
        } else {
            Some(side_sums(&self.bids))
        }
    }

    /// Full-depth quantity-weighted average ask price, as the exact integer
    /// ratio `(sum of price * quantity, sum of quantity)`; `None` when the
    /// side is empty.
    pub fn get_weighted_ask(&self) -> (r: Option<(u128, u128)>)
        requires
            total_notional(self.asks@) <= u128::MAX,
        ensures
            r == (if self.asks@.len() == 0 {
                None::<(u128, u128)>
            } else {
                Some((total_notional(self.asks@) as u128, total_quantity(self.asks@) as u128))
            }),
    {
        if self.asks.len() == 0 {
            None
        } else {
            Some(side_sums(&self.asks))
        }
    }

    /// Liquidity-weighted midpoint of the two best levels, as the exact
    /// integer ratio `(bestBid.price * bestBid.qty + bestAsk.price *
    /// bestAsk.qty, bestBid.qty + bestAsk.qty)`; `None` unless both sides
    /// are non-empty.
    pub fn get_weighted_mid_price(&self) -> (r: Option<(u128, u128)>)
        requires
            self.bids@.len() > 0 && self.asks@.len() > 0 ==> self.bids@[0].price
                * self.bids@[0].quantity + self.asks@[0].price * self.asks@[0].quantity
                <= u128::MAX,
        ensures
            r == (if self.bids@.len() == 0 || self.asks@.len() == 0 {
                None::<(u128, u128)>
            } else {
                Some(
                    (
                        (self.bids@[0].price * self.bids@[0].quantity + self.asks@[0].price
                            * self.asks@[0].quantity) as u128,
                        (self.bids@[0].quantity + self.asks@[0].quantity) as u128,
                    ),
                )
            }),
    {
        if self.bids.len() == 0 || self.asks.len() == 0 {
            return None;
        }
        let bb = self.bids[0];
        let ba = self.asks[0];
        proof {
            lemma_u64_product_fits(bb.price, bb.quantity);
            lemma_u64_product_fits(ba.price, ba.quantity);
        }
        let numerator: u128 = (bb.price as u128) * (bb.quantity as u128) + (ba.price as u128) * (
        ba.quantity as u128);
        let denominator: u128 = (bb.quantity as u128) + (ba.quantity as u128);
        Some((numerator, denominator))
    }

    /// Total resting bid quantity, in quantized units.
    pub fn get_total_bid_quantity(&self) -> (r: u128)
        ensures
            r == total_quantity(self.bids@),
    {
        side_quantity(&self.bids)
    }

    /// Total resting ask quantity, in quantized units.
    pub fn get_total_ask_quantity(&self) -> (r: u128)
        ensures
            r == total_quantity(self.asks@),
    {
        side_quantity(&self.asks)
    }

    /// Simulates a market buy of `scaled_quantity`, walking the asks from
    /// the lowest price upward. Returns the notional paid and the worst
    /// price touched; `None` exactly when the ask depth cannot fill the
    /// order in full.
    pub fn simulate_taker_buy(&self, scaled_quantity: u64) -> (r: Option<(u128, u64)>)
        requires
            self.wf(),
            total_notional(self.asks@) <= u128::MAX,
        ensures
            match r {
                Some((n, w)) => consume(self.asks@, scaled_quantity as int) == Some((n as int, w)),
                None => consume(self.asks@, scaled_quantity as int) is None,
            },
            r is Some <==> (self.asks@.len() > 0 && scaled_quantity <= total_quantity(self.asks@)),
    {
        proof {
            assert(self.asks@.skip(0) =~= self.asks@);
            lemma_consume_defined(self.asks@, scaled_quantity as int);
        }
        walk_side(&self.asks, 0, scaled_quantity)
    }

    /// Simulates a market sell of `scaled_quantity`, walking the bids from
    /// the highest price downward. Returns the notional received and the
    /// worst price touched; `None` exactly when the bid depth cannot fill
    /// the order in full.
    pub fn simulate_taker_sell(&self, scaled_quantity: u64) -> (r: Option<(u128, u64)>)
        requires
            self.wf(),
            total_notional(self.bids@) <= u128::MAX,
        ensures
            match r {
                Some((n, w)) => consume(self.bids@, scaled_quantity as int) == Some((n as int, w)),
                None => consume(self.bids@, scaled_quantity as int) is None,
            },
            r is Some <==> (self.bids@.len() > 0 && scaled_quantity <= total_quantity(self.bids@)),
    {
        proof {
            assert(self.bids@.skip(0) =~= self.bids@);
            lemma_consume_defined(self.bids@, scaled_quantity as int);
        }
        walk_side(&self.bids, 0, scaled_quantity)
    }

    /// Simulates a market order: `side == 1` buys against the asks, any
    /// other value sells against the bids.
    pub fn simulate_market_order(&self, side: u8, scaled_quantity: u64) -> (r: Option<(u128, u64)>)
        requires
            self.wf(),
            side == 1 ==> total_notional(self.asks@) <= u128::MAX,
            side != 1 ==> total_notional(self.bids@) <= u128::MAX,
        ensures
            side == 1 ==> match r {
                Some((n, w)) => consume(self.asks@, scaled_quantity as int) == Some((n as int, w)),
                None => consume(self.asks@, scaled_quantity as int) is None,
            },
            side != 1 ==> match r {
                Some((n, w)) => consume(self.bids@, scaled_quantity as int) == Some((n as int, w)),
                None => consume(self.bids@, scaled_quantity as int) is None,
            },
            side == 1 ==> (r is Some <==> (self.asks@.len() > 0 && scaled_quantity
                <= total_quantity(self.asks@))),
            side != 1 ==> (r is Some <==> (self.bids@.len() > 0 && scaled_quantity
                <= total_quantity(self.bids@))),
    {
        if side == 1 {
            self.simulate_taker_buy(scaled_quantity)
        } else {
            self.simulate_taker_sell(scaled_quantity)
        }
    }
}

/// The product of two 64-bit values always fits the 128-bit accumulators.
proof fn lemma_u64_product_fits(a: u64, b: u64)
    ensures
        0 <= a * b <= u128::MAX,
{
    assert(0 <= a * b <= (u64::MAX as int) * (u64::MAX as int)) by (nonlinear_arith)
        requires
            0 <= a <= u64::MAX,
            0 <= b <= u64::MAX,
    ;
}

/// Sums one side's notional and quantity in one pass.
fn side_sums(levels: &Vec<PriceLevel>) -> (r: (u128, u128))
    requires
        total_notional(levels@) <= u128::MAX,
    ensures
        r.0 == total_notional(levels@),
        r.1 == total_quantity(levels@),
{
    let mut notional: u128 = 0;
    let mut quantity: u128 = 0;
    let mut i: usize = 0;
    proof {
        assert(levels@.take(0) =~= Seq::<PriceLevel>::empty());
    }
    while i < levels.len()
        invariant
            i <= levels@.len(),
            total_notional(levels@) <= u128::MAX,
            notional == total_notional(levels@.take(i as int)),
            quantity == total_quantity(levels@.take(i as int)),
        decreases levels@.len() - i,
    {
        let lvl = levels[i];
        proof {
            crate::model::lemma_sums_take_step(levels@, i as int);
            crate::model::lemma_sums_prefix(levels@, i + 1);
            crate::model::lemma_sums_bounds(levels@.take(i + 1));
            lemma_u64_product_fits(lvl.price, lvl.quantity);
            lemma_quantity_sum_fits(levels@.take(i + 1));
        }
        notional = notional + (lvl.price as u128) * (lvl.quantity as u128);
        quantity = quantity + (lvl.quantity as u128);
        i = i + 1;
    }
    proof {
        assert(levels@.take(levels@.len() as int) =~= levels@);
    }
    (notional, quantity)
}

/// A quantity sum never overflows the 128-bit accumulator: there are at
/// most `usize::MAX` levels of at most `u64::MAX` each.
proof fn lemma_quantity_sum_fits(s: Seq<PriceLevel>)
    requires
        s.len() <= usize::MAX,
    ensures
        0 <= total_quantity(s) <= u128::MAX,
{
    crate::model::lemma_sums_bounds(s);
    assert(s.len() * (u64::MAX as int) <= (u64::MAX as int) * (u64::MAX as int))
        by (nonlinear_arith)
        requires
            0 <= s.len() <= u64::MAX as int,
    ;
}

/// Sums one side's quantities.
fn side_quantity(levels: &Vec<PriceLevel>) -> (r: u128)
    ensures
        r == total_quantity(levels@),
{
    let mut quantity: u128 = 0;
    let mut i: usize = 0;
    proof {
        assert(levels@.take(0) =~= Seq::<PriceLevel>::empty());
    }
    while i < levels.len()
        invariant
            i <= levels@.len(),
            quantity == total_quantity(levels@.take(i as int)),
        decreases levels@.len() - i,
    {
        let lvl = levels[i];
        proof {
            crate::model::lemma_sums_take_step(levels@, i as int);
            lemma_quantity_sum_fits(levels@.take(i + 1));
        }
        quantity = quantity + (lvl.quantity as u128);
        i = i + 1;
    }
    proof {
        assert(levels@.take(levels@.len() as int) =~= levels@);
    }
    quantity
}

/// The market-order walk from index `i` with `remaining` still to fill,
/// mirroring `consume` over the rest of the side.
fn walk_side(levels: &Vec<PriceLevel>, i: usize, remaining: u64) -> (r: Option<(u128, u64)>)
    requires
        i <= levels@.len(),
        positive_quantities(levels@),
        total_notional(levels@.skip(i as int)) <= u128::MAX,
    ensures
        match r {
            Some((n, w)) => consume(levels@.skip(i as int), remaining as int) == Some((n as int, w)),
            None => consume(levels@.skip(i as int), remaining as int) is None,
        },
    decreases levels@.len() - i,
{
    let ghost rest = levels@.skip(i as int);
    if i == levels.len() {
        proof {
            assert(rest =~= Seq::<PriceLevel>::empty());
        }
        None
    } else {
        let lvl = levels[i];
        proof {
            assert(rest[0] == levels@[i as int]);
            assert(rest.drop_first() =~= levels@.skip(i as int + 1));
            crate::model::lemma_positive_skip(levels@, i as int);
            crate::model::lemma_positive_skip(levels@, i as int + 1);
            crate::model::lemma_sums_front(rest);
            lemma_u64_product_fits(lvl.price, lvl.quantity);
        }
        if lvl.quantity >= remaining {
            proof {
                lemma_u64_product_fits(remaining, lvl.price);
            }
            Some(((remaining as u128) * (lvl.price as u128), lvl.price))
        } else {
            proof {
                crate::model::lemma_sums_bounds(levels@.skip(i as int + 1));
            }
            match walk_side(levels, i + 1, remaining - lvl.quantity) {
                Some((n, w)) => {
                    proof {
                        crate::model::lemma_consume_notional_bound(
                            levels@.skip(i as int + 1),
                            remaining - lvl.quantity,
                        );
                    }
                    Some((n + (lvl.price as u128) * (lvl.quantity as u128), w))
                },
                None => None,
            }
        }
    }
}

/// True when a level priced `a` stands before one priced `b` on a side
/// ordered in the given direction.
pub open spec fn spec_comes_before(a: u64, b: u64, descending: bool) -> bool {
    if descending {
        a > b
    } else {
        a < b
    }
}

fn comes_before(a: u64, b: u64, descending: bool) -> (r: bool)
    ensures
        r == spec_comes_before(a, b, descending),
{
    if descending {
        a > b
    } else {
        a < b
    }
}

/// Applies one `(price, quantity)` update to one ordered side: a positive
/// quantity inserts or replaces the level at that price, a zero quantity
/// removes it (a no-op when absent). Ordering, positivity and every other
/// price's entry are preserved.
fn upsert_level(levels: &mut Vec<PriceLevel>, price: u64, quantity: u64, descending: bool)
    requires
        sorted_by_price(old(levels)@, descending),
        positive_quantities(old(levels)@),
    ensures
        sorted_by_price(final(levels)@, descending),
        positive_quantities(final(levels)@),
        forall|p: u64| #[trigger] entry(final(levels)@, p) == applied_update(
            entry(old(levels)@, p),
            price,
            quantity,
            p,
        ),
{
    proof {
        lemma_sorted_distinct(old(levels)@, descending);
    }
    let ghost s = levels@;
    let mut j: usize = 0;
    while j < levels.len() && comes_before(levels[j].price, price, descending)
        invariant
            j <= s.len(),
            levels@ == s,
            forall|k: int| 0 <= k < j ==> spec_comes_before(#[trigger] s[k].price, price, descending),
        decreases s.len() - j,
    {
        j = j + 1;
    }
    if j < levels.len() && levels[j].price == price {
        if quantity > 0 {
            let lvl = PriceLevel { price: price, quantity: quantity };
            levels[j] = lvl;
            proof {
                let t = levels@;
                assert(t == s.update(j as int, lvl));
                lemma_entry_update(s, j as int, lvl);
                assert forall|a: int, b: int| 0 <= a < b < t.len() implies (if descending {
                    t[a].price > t[b].price
                } else {
                    t[a].price < t[b].price
                }) by {
                    assert(t[a].price == s[a].price);
                    assert(t[b].price == s[b].price);
                }
            }
        } else {
            levels.remove(j);
            proof {
                let t = levels@;
                lemma_entry_remove(s, j as int);
                assert forall|k: int| 0 <= k < t.len() implies t[k] == (if k < j {
                    s[k]
                } else {
                    s[k + 1]
                }) by {}
                assert forall|a: int, b: int| 0 <= a < b < t.len() implies (if descending {
                    t[a].price > t[b].price
                } else {
                    t[a].price < t[b].price
                }) by {
                    let a2 = if a < j { a } else { a + 1 };
                    let b2 = if b < j { b } else { b + 1 };
                    assert(t[a] == s[a2]);
                    assert(t[b] == s[b2]);
                    assert(0 <= a2 < b2 < s.len());
                }
                assert forall|k: int| 0 <= k < t.len() implies t[k].quantity > 0 by {
                    let k2 = if k < j { k } else { k + 1 };
                    assert(t[k] == s[k2]);
                }
            }
        }
    } else {
        // At this point no level carries `price`: everything before `j`
        // comes strictly before it, and from `j` on the side is strictly
        // past it.
        proof {
            assert forall|i: int| 0 <= i < s.len() implies s[i].price != price by {
                if i >= j {
                    if i > j {
                        assert(spec_comes_before(s[j as int].price, s[i].price, descending));
                    }
                }
            }
        }
        if quantity > 0 {
            let lvl = PriceLevel { price: price, quantity: quantity };
            levels.insert(j, lvl);
            proof {
                let t = levels@;
                lemma_entry_insert(s, j as int, lvl);
                assert forall|k: int| 0 <= k < t.len() implies t[k] == (if k < j {
                    s[k]
                } else if k == j {
                    lvl
                } else {
                    s[k - 1]
                }) by {}
                assert forall|a: int, b: int| 0 <= a < b < t.len() implies (if descending {
                    t[a].price > t[b].price
                } else {
                    t[a].price < t[b].price
                }) by {
                    if a < j && b > j {
                        assert(t[a] == s[a] && t[b] == s[b - 1]);
                        if j < s.len() {
                            assert(!spec_comes_before(s[j as int].price, price, descending));
                        }
                    }
                }
                assert forall|k: int| 0 <= k < t.len() implies t[k].quantity > 0 by {}
            }
        } else {
            proof {
                if entry(s, price) is Some {
                    crate::model::lemma_entry_index(s, price);
                    assert(false);
                }
            }
        }
    }
}

/// `pow10` is monotone in its argument.
proof fn lemma_pow10_increases(a: nat, b: nat)
    requires
        a <= b,
    ensures
        pow10(a) <= pow10(b),
    decreases b,
{
    if a < b {
        lemma_pow10_increases(a, (b - 1) as nat);
    }
}

/// Computes `10^d` for a precision within the cap.
fn pow10_u64(d: u8) -> (r: u64)
    requires
        d <= MAX_DECIMALS,
    ensures
        r == pow10(d as nat),
{
    let mut r: u64 = 1;
    let mut i: u8 = 0;
    while i < d
        invariant
            i <= d,
            d <= MAX_DECIMALS,
            r == pow10(i as nat),
        decreases d - i,
    {
        proof {
            lemma_pow10_increases(i as nat, 7);
            reveal_with_fuel(pow10, 9);
            assert(pow10(7) == 10000000);
        }
        r = r * 10;
        i = i + 1;
    }
    r
}

} // verus!
