//! The mathematical model of a book side.
//!
//! A side is a sequence of price levels. The spec functions here say what a
//! side holds (`entry`), what a list of updates leaves behind
//! (`updates_result`), how deep a side is (`total_quantity`,
//! `total_notional`), and what a market-order walk returns (`consume`).
//! The lemmas relate those functions to the sequence operations the
//! executable code performs.

use vstd::prelude::*;

verus! {

/// One aggregated depth entry: a quantized price and the quantized quantity
/// resting at that price.
#[derive(Clone, Copy, Debug, PartialEq, Eq, Structural)]
pub struct PriceLevel {
    pub price: u64,
    pub quantity: u64,
}

/// `10^d`, the scale factor belonging to `d` decimal digits.
pub open spec fn pow10(d: nat) -> nat
    decreases d,
{
    if d == 0 {
        1
    } else {
        10 * pow10((d - 1) as nat)
    }
}

/// Every level of the side carries a strictly positive quantity: a
/// non-positive quantity is a deletion signal and is never stored.
pub open spec fn positive_quantities(s: Seq<PriceLevel>) -> bool {
    forall|i: int| 0 <= i < s.len() ==> s[i].quantity > 0
}

/// Prices strictly decrease front to back when `descending` (a bid side),
/// strictly increase otherwise (an ask side).
pub open spec fn sorted_by_price(s: Seq<PriceLevel>, descending: bool) -> bool {
    forall|i: int, j: int|
        0 <= i < j < s.len() ==> if descending {
            s[i].price > s[j].price
        } else {
            s[i].price < s[j].price
        }
}

/// No two levels of the side share a price.
pub open spec fn distinct_prices(s: Seq<PriceLevel>) -> bool {
    forall|i: int, j: int| 0 <= i < j < s.len() ==> s[i].price != s[j].price
}

/// The quantity resting at price `p`, or `None` when the side has no level
/// at that price.
pub open spec fn entry(s: Seq<PriceLevel>, p: u64) -> Option<u64>
    decreases s.len(),
{
    if s.len() == 0 {
        None
    } else if s[0].price == p {
        Some(s[0].quantity)
    } else {
        entry(s.drop_first(), p)
    }
}

/// What one `(price, quantity)` update leaves at price `p`: at the updated
/// price a positive quantity is stored and a zero quantity deletes; every
/// other price keeps its prior entry.
pub open spec fn applied_update(
    prior: Option<u64>,
    price: u64,
    quantity: u64,
    p: u64,
) -> Option<u64> {
    if p == price {
        if quantity > 0 {
            Some(quantity)
        } else {
            None
        }
    } else {
        prior
    }
}

/// The entry at price `p` after a whole list of updates has been applied on
/// top of `prior`: the last update naming `p` wins, and a non-positive
/// quantity there means deletion.
pub open spec fn updates_result(prior: Option<u64>, ups: Seq<(u64, u64)>, p: u64) -> Option<u64>
    decreases ups.len(),
{
    if ups.len() == 0 {
        prior
    } else if ups.last().0 == p {
        if ups.last().1 > 0 {
            Some(ups.last().1)
        } else {
            None
        }
    } else {
        updates_result(prior, ups.drop_last(), p)
    }
}

/// Total resting quantity of the side.
pub open spec fn total_quantity(s: Seq<PriceLevel>) -> int
    decreases s.len(),
{
    if s.len() == 0 {
        0
    } else {
        total_quantity(s.drop_last()) + s.last().quantity
    }
}

/// Total notional of the side: the sum of `price * quantity` over its levels.
pub open spec fn total_notional(s: Seq<PriceLevel>) -> int
    decreases s.len(),
{
    if s.len() == 0 {
        0
    } else {
        total_notional(s.drop_last()) + s.last().price * s.last().quantity
    }
}

/// A market-order walk over the side in consumption order. Returns the
/// notional paid and the worst (last) price touched, or `None` when the
/// side is exhausted before `remaining` is filled. A level whose quantity
/// equals `remaining` fully consumes the order and terminates the walk,
/// exactly like a strictly larger level.
pub open spec fn consume(s: Seq<PriceLevel>, remaining: int) -> Option<(int, u64)>
    decreases s.len(),
{
    if s.len() == 0 {
        None
    } else if s[0].quantity >= remaining {
        Some((remaining * s[0].price, s[0].price))
    } else {
        match consume(s.drop_first(), remaining - s[0].quantity) {
            Some((n, w)) => Some((n + s[0].price * s[0].quantity, w)),
            None => None,
        }
    }
}

/// Strict ordering in either direction leaves no two levels with one price.
pub proof fn lemma_sorted_distinct(s: Seq<PriceLevel>, descending: bool)
    requires
        sorted_by_price(s, descending),
    ensures
        distinct_prices(s),
{
}

/// The side sums can also be unfolded at the front.
pub proof fn lemma_sums_front(s: Seq<PriceLevel>)
    requires
        s.len() > 0,
    ensures
        total_quantity(s) == s[0].quantity + total_quantity(s.drop_first()),
        total_notional(s) == s[0].price * s[0].quantity + total_notional(s.drop_first()),
    decreases s.len(),
{
    if s.len() == 1 {
        assert(s.drop_last() =~= Seq::<PriceLevel>::empty());
        assert(s.drop_first() =~= Seq::<PriceLevel>::empty());
    } else {
        lemma_sums_front(s.drop_last());
        assert(s.drop_last().drop_first() =~= s.drop_first().drop_last());
        assert(s.drop_first().last() == s.last());
        assert(s.drop_last()[0] == s[0]);
    }
}

/// Both side sums are non-negative, the quantity sum is bounded by the
/// level count times the largest quantity a level can carry, and a
/// non-empty side with positive quantities has positive depth.
pub proof fn lemma_sums_bounds(s: Seq<PriceLevel>)
    ensures
        0 <= total_quantity(s) <= s.len() * (u64::MAX as int),
        0 <= total_notional(s),
        positive_quantities(s) ==> total_quantity(s) >= s.len(),
    decreases s.len(),
{
    if s.len() > 0 {
        lemma_sums_bounds(s.drop_last());
        assert(0 <= s.last().price * s.last().quantity) by (nonlinear_arith);
        if positive_quantities(s) {
            assert(positive_quantities(s.drop_last()));
        }
    }
}

/// Every prefix of a side carries at most the whole side's depth and
/// notional.
pub proof fn lemma_sums_prefix(s: Seq<PriceLevel>, k: int)
    requires
        0 <= k <= s.len(),
    ensures
        total_quantity(s.take(k)) <= total_quantity(s),
        total_notional(s.take(k)) <= total_notional(s),
    decreases s.len(),
{
    if k == s.len() {
        assert(s.take(k) =~= s);
    } else {
        assert(s.take(k) =~= s.drop_last().take(k));
        lemma_sums_prefix(s.drop_last(), k);
        assert(0 <= s.last().price * s.last().quantity) by (nonlinear_arith);
    }
}

/// Extending a prefix by one level adds that level's contribution.
pub proof fn lemma_sums_take_step(s: Seq<PriceLevel>, i: int)
    requires
        0 <= i < s.len(),
    ensures
        total_quantity(s.take(i + 1)) == total_quantity(s.take(i)) + s[i].quantity,
        total_notional(s.take(i + 1)) == total_notional(s.take(i)) + s[i].price * s[i].quantity,
{
    assert(s.take(i + 1).drop_last() =~= s.take(i));
    assert(s.take(i + 1).last() == s[i]);
}

/// What `entry` says of the indices: a present price is carried by some
/// level with that quantity, and an absent price by no level at all.
pub proof fn lemma_entry_index(s: Seq<PriceLevel>, p: u64)
    ensures
        match entry(s, p) {
            Some(q) => exists|i: int| 0 <= i < s.len() && s[i].price == p && s[i].quantity == q,
            None => forall|i: int| 0 <= i < s.len() ==> s[i].price != p,
        },
    decreases s.len(),
{
    if s.len() > 0 && s[0].price != p {
        lemma_entry_index(s.drop_first(), p);
        match entry(s, p) {
            Some(q) => {
                let j = choose|j: int|
                    0 <= j < s.drop_first().len() && s.drop_first()[j].price == p
                        && s.drop_first()[j].quantity == q;
                assert(s[j + 1].price == p && s[j + 1].quantity == q);
            },
            None => {
                assert forall|i: int| 0 <= i < s.len() implies s[i].price != p by {
                    if i > 0 {
                        assert(s.drop_first()[i - 1].price != p);
                    }
                }
            },
        }
    }
}

/// Dropping the front level keeps the remaining prices distinct.
pub proof fn lemma_distinct_drop_first(s: Seq<PriceLevel>)
    requires
        distinct_prices(s),
        s.len() > 0,
    ensures
        distinct_prices(s.drop_first()),
{
    assert forall|a: int, b: int|
        0 <= a < b < s.drop_first().len() implies s.drop_first()[a].price
        != s.drop_first()[b].price by {
        assert(s[a + 1].price != s[b + 1].price);
    }
}

/// Replacing the level at index `j` by one with the same price rewrites the
/// entry at that price and no other.
pub proof fn lemma_entry_update(s: Seq<PriceLevel>, j: int, lvl: PriceLevel)
    requires
        distinct_prices(s),
        0 <= j < s.len(),
        s[j].price == lvl.price,
    ensures
        forall|p: u64| #[trigger] entry(s.update(j, lvl), p) == if p == lvl.price {
            Some(lvl.quantity)
        } else {
            entry(s, p)
        },
    decreases s.len(),
{
    let t = s.update(j, lvl);
    if j == 0 {
        assert(t.drop_first() =~= s.drop_first());
        assert(t[0] == lvl);
    } else {
        lemma_distinct_drop_first(s);
        assert(t.drop_first() =~= s.drop_first().update(j - 1, lvl));
        lemma_entry_update(s.drop_first(), j - 1, lvl);
        assert(t[0] == s[0]);
        assert(s[0].price != lvl.price);
    }
    assert forall|p: u64| #[trigger] entry(t, p) == (if p == lvl.price {
        Some(lvl.quantity)
    } else {
        entry(s, p)
    }) by {
        if j > 0 {
            assert(entry(t.drop_first(), p) == entry(s.drop_first().update(j - 1, lvl), p));
        }
    }
}

/// Inserting a level whose price is new adds exactly its entry.
pub proof fn lemma_entry_insert(s: Seq<PriceLevel>, j: int, lvl: PriceLevel)
    requires
        0 <= j <= s.len(),
        forall|i: int| 0 <= i < s.len() ==> s[i].price != lvl.price,
    ensures
        forall|p: u64| #[trigger] entry(s.insert(j, lvl), p) == if p == lvl.price {
            Some(lvl.quantity)
        } else {
            entry(s, p)
        },
    decreases s.len(),
{
    let t = s.insert(j, lvl);
    if j == 0 {
        assert(t.drop_first() =~= s);
        assert(t[0] == lvl);
    } else {
        assert forall|i: int| 0 <= i < s.drop_first().len() implies s.drop_first()[i].price
            != lvl.price by {
            assert(s[i + 1].price != lvl.price);
        }
        assert(t.drop_first() =~= s.drop_first().insert(j - 1, lvl));
        lemma_entry_insert(s.drop_first(), j - 1, lvl);
        assert(t[0] == s[0]);
        assert(s[0].price != lvl.price);
    }
    assert forall|p: u64| #[trigger] entry(t, p) == (if p == lvl.price {
        Some(lvl.quantity)
    } else {
        entry(s, p)
    }) by {
        if j > 0 {
            assert(entry(t.drop_first(), p) == entry(s.drop_first().insert(j - 1, lvl), p));
        }
    }
}

/// Removing the level at index `j` deletes exactly its entry.
pub proof fn lemma_entry_remove(s: Seq<PriceLevel>, j: int)
    requires
        distinct_prices(s),
        0 <= j < s.len(),
    ensures
        forall|p: u64| #[trigger] entry(s.remove(j), p) == if p == s[j].price {
            None::<u64>
        } else {
            entry(s, p)
        },
    decreases s.len(),
{
    let t = s.remove(j);
    if j == 0 {
        assert(t =~= s.drop_first());
        lemma_distinct_drop_first(s);
        assert forall|i: int| 0 <= i < s.drop_first().len() implies s.drop_first()[i].price
            != s[0].price by {
            assert(s[i + 1].price != s[0].price);
        }
        if entry(s.drop_first(), s[0].price) is Some {
            lemma_entry_index(s.drop_first(), s[0].price);
            assert(false);
        }
    } else {
        lemma_distinct_drop_first(s);
        assert(t.drop_first() =~= s.drop_first().remove(j - 1));
        lemma_entry_remove(s.drop_first(), j - 1);
        assert(t[0] == s[0]);
        assert(s[0].price != s[j].price);
    }
    assert forall|p: u64| #[trigger] entry(t, p) == (if p == s[j].price {
        None::<u64>
    } else {
        entry(s, p)
    }) by {
        if j > 0 {
            assert(entry(t.drop_first(), p) == entry(s.drop_first().remove(j - 1), p));
        }
    }
}

/// With distinct prices, the entry at any level's price is that level's
/// quantity.
pub proof fn lemma_entry_at_index(s: Seq<PriceLevel>, i: int)
    requires
        distinct_prices(s),
        0 <= i < s.len(),
    ensures
        entry(s, s[i].price) == Some(s[i].quantity),
    decreases s.len(),
{
    if i > 0 {
        assert(s[0].price != s[i].price);
        assert(distinct_prices(s.drop_first())) by {
            assert forall|a: int, b: int|
                0 <= a < b < s.drop_first().len() implies s.drop_first()[a].price
                != s.drop_first()[b].price by {
                assert(s[a + 1].price != s[b + 1].price);
            }
        }
        lemma_entry_at_index(s.drop_first(), i - 1);
    }
}

/// Positivity of quantities carries over to any tail of the side.
pub proof fn lemma_positive_skip(s: Seq<PriceLevel>, i: int)
    requires
        positive_quantities(s),
        0 <= i <= s.len(),
    ensures
        positive_quantities(s.skip(i)),
{
    assert forall|k: int| 0 <= k < s.skip(i).len() implies s.skip(i)[k].quantity > 0 by {
        assert(s.skip(i)[k] == s[i + k]);
    }
}

/// The walk succeeds exactly when the side is non-empty and holds at least
/// the requested quantity.
pub proof fn lemma_consume_defined(s: Seq<PriceLevel>, q: int)
    requires
        positive_quantities(s),
        q >= 0,
    ensures
        consume(s, q) is Some <==> (s.len() > 0 && q <= total_quantity(s)),
    decreases s.len(),
{
    if s.len() > 0 {
        lemma_sums_front(s);
        lemma_sums_bounds(s.drop_first());
        if s[0].quantity < q {
            assert(positive_quantities(s.drop_first()));
            lemma_consume_defined(s.drop_first(), q - s[0].quantity);
        }
    }
}

/// Whatever a successful walk pays is between zero and the side's whole
/// notional.
pub proof fn lemma_consume_notional_bound(s: Seq<PriceLevel>, q: int)
    requires
        positive_quantities(s),
        q >= 0,
    ensures
        consume(s, q) matches Some((n, _)) ==> 0 <= n <= total_notional(s),
    decreases s.len(),
{
    if s.len() > 0 {
        lemma_sums_front(s);
        lemma_sums_bounds(s.drop_first());
        assert(total_notional(s) == s[0].price * s[0].quantity + total_notional(s.drop_first()));
        if s[0].quantity >= q {
            assert(consume(s, q) == Some((q * s[0].price, s[0].price)));
            assert(0 <= q * s[0].price <= total_notional(s)) by (nonlinear_arith)
                requires
                    0 <= q <= s[0].quantity,
                    s[0].price >= 0,
                    total_notional(s) == s[0].price * s[0].quantity + total_notional(
                        s.drop_first(),
                    ),
                    total_notional(s.drop_first()) >= 0,
            ;
        } else {
            assert(positive_quantities(s.drop_first()));
            lemma_consume_notional_bound(s.drop_first(), q - s[0].quantity);
            assert(0 <= s[0].price * s[0].quantity) by (nonlinear_arith);
            match consume(s.drop_first(), q - s[0].quantity) {
                Some((n2, w2)) => {
                    assert(consume(s, q) == Some((n2 + s[0].price * s[0].quantity, w2)));
                    assert(0 <= n2 <= total_notional(s.drop_first()));
                },
                None => {
                    assert(consume(s, q) is None);
                },
            }
        }
    }
}

/// A walk for exactly the side's total depth consumes every level: it pays
/// the side's whole notional and touches the last level's price.
pub proof fn lemma_consume_full_depth(s: Seq<PriceLevel>)
    requires
        positive_quantities(s),
        s.len() > 0,
    ensures
        consume(s, total_quantity(s)) == Some((total_notional(s), s.last().price)),
    decreases s.len(),
{
    lemma_sums_front(s);
    lemma_sums_bounds(s.drop_first());
    if s.len() == 1 {
        assert(s.drop_first().len() == 0);
        assert(total_quantity(s) == s[0].quantity);
        assert(total_quantity(s) * s[0].price == s[0].price * s[0].quantity) by (nonlinear_arith)
            requires
                total_quantity(s) == s[0].quantity,
        ;
    } else {
        assert(positive_quantities(s.drop_first()));
        assert(total_quantity(s.drop_first()) >= s.drop_first().len());
        assert(s[0].quantity < total_quantity(s));
        lemma_consume_full_depth(s.drop_first());
        assert(s.drop_first().last() == s.last());
    }
}

} // verus!
