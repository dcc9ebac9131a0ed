//! The book's general laws, stated over the model and proved once for every
//! input: what a snapshot leaves in the book, why the best level dominates
//! its side, where a depth-weighted average can lie, that a snapshot is
//! idempotent, and what the market-order walk returns at and beyond the
//! side's full depth.

use vstd::prelude::*;

use crate::book::Orderbook;
use crate::model::PriceLevel;
use crate::model::consume;
use crate::model::entry;
use crate::model::lemma_consume_defined;
use crate::model::lemma_consume_full_depth;
use crate::model::lemma_entry_at_index;
use crate::model::lemma_entry_index;
use crate::model::lemma_sorted_distinct;
use crate::model::positive_quantities;
use crate::model::sorted_by_price;
use crate::model::total_notional;
use crate::model::total_quantity;
use crate::model::updates_result;

verus! {

/// What a list of updates applied to an empty side leaves at price `p`:
/// the last update naming `p` decides alone — a positive quantity stores
/// it, a zero quantity leaves nothing — and a price never named stays
/// absent.
pub proof fn lemma_updates_from_empty(ups: Seq<(u64, u64)>, p: u64)
    ensures
        updates_result(None, ups, p) matches Some(q) ==> q > 0 && exists|i: int|
            0 <= i < ups.len() && ups[i] == (p, q),
        forall|i: int|
            (0 <= i < ups.len() && (#[trigger] ups[i]).0 == p && (forall|j: int|
                i < j < ups.len() ==> ups[j].0 != p)) ==> updates_result(None, ups, p) == (if ups[i].1
                > 0 {
                Some(ups[i].1)
            } else {
                None::<u64>
            }),
        (forall|i: int| 0 <= i < ups.len() ==> (#[trigger] ups[i]).0 != p) ==> updates_result(
            None,
            ups,
            p,
        ) is None,
    decreases ups.len(),
{
    if ups.len() > 0 {
        let pre = ups.drop_last();
        lemma_updates_from_empty(pre, p);
        let last = ups.len() - 1;
        if ups[last].0 == p {
            if updates_result(None, ups, p) is Some {
                let q = updates_result(None, ups, p).unwrap();
                assert(ups[last] == (p, q));
            }
            assert forall|i: int|
                (0 <= i < ups.len() && (#[trigger] ups[i]).0 == p && (forall|j: int|
                    i < j < ups.len() ==> ups[j].0 != p)) implies updates_result(None, ups, p) == (
            if ups[i].1 > 0 {
                Some(ups[i].1)
            } else {
                None::<u64>
            }) by {
                if i < last {
                    assert(ups[last].0 != p);
                }
            }
        } else {
            if updates_result(None, ups, p) is Some {
                let q = updates_result(None, ups, p).unwrap();
                let w = choose|i: int| 0 <= i < pre.len() && pre[i] == (p, q);
                assert(ups[w] == (p, q));
            }
            assert forall|i: int|
                (0 <= i < ups.len() && (#[trigger] ups[i]).0 == p && (forall|j: int|
                    i < j < ups.len() ==> ups[j].0 != p)) implies updates_result(None, ups, p) == (
            if ups[i].1 > 0 {
                Some(ups[i].1)
            } else {
                None::<u64>
            }) by {
                assert(i < last);
                assert(pre[i].0 == p);
                assert forall|j: int| i < j < pre.len() implies pre[j].0 != p by {
                    assert(ups[j].0 != p);
                }
            }
            if forall|i: int| 0 <= i < ups.len() ==> (#[trigger] ups[i]).0 != p {
                assert forall|i: int| 0 <= i < pre.len() implies (#[trigger] pre[i]).0 != p by {
                    assert(ups[i].0 != p);
                }
            }
        }
    }
}

/// After a snapshot the side holds exactly the input's surviving levels:
/// each price's last update with a positive quantity, nothing for a price
/// whose last update was a deletion, and nothing at any price the input
/// never named.
pub proof fn lemma_snapshot_contents(s: Seq<PriceLevel>, ups: Seq<(u64, u64)>)
    requires
        forall|p: u64| #[trigger] entry(s, p) == updates_result(None, ups, p),
    ensures
        forall|p: u64| (#[trigger] entry(s, p)) matches Some(q) ==> q > 0 && exists|i: int|
            0 <= i < ups.len() && ups[i] == (p, q),
        forall|i: int|
            (0 <= i < ups.len() && (#[trigger] ups[i]).1 > 0 && (forall|j: int|
                i < j < ups.len() ==> ups[j].0 != ups[i].0)) ==> entry(s, ups[i].0) == Some(
                ups[i].1,
            ),
        forall|i: int|
            (0 <= i < ups.len() && (#[trigger] ups[i]).1 == 0 && (forall|j: int|
                i < j < ups.len() ==> ups[j].0 != ups[i].0)) ==> entry(s, ups[i].0) is None,
        forall|p: u64| (forall|i: int| 0 <= i < ups.len() ==> (#[trigger] ups[i]).0 != p)
            ==> entry(s, p) is None,
{
    assert forall|p: u64| #[trigger] entry(s, p) is Some implies entry(s, p).unwrap() > 0
        && exists|i: int| 0 <= i < ups.len() && ups[i] == (p, entry(s, p).unwrap()) by {
        lemma_updates_from_empty(ups, p);
    }
    assert forall|i: int|
        (0 <= i < ups.len() && (#[trigger] ups[i]).1 > 0 && (forall|j: int|
            i < j < ups.len() ==> ups[j].0 != ups[i].0)) implies entry(s, ups[i].0) == Some(
        ups[i].1,
    ) by {
        lemma_updates_from_empty(ups, ups[i].0);
    }
    assert forall|i: int|
        (0 <= i < ups.len() && (#[trigger] ups[i]).1 == 0 && (forall|j: int|
            i < j < ups.len() ==> ups[j].0 != ups[i].0)) implies entry(s, ups[i].0) is None by {
        lemma_updates_from_empty(ups, ups[i].0);
    }
    assert forall|p: u64| (forall|i: int| 0 <= i < ups.len() ==> (#[trigger] ups[i]).0 != p)
        implies entry(s, p) is None by {
        lemma_updates_from_empty(ups, p);
    }
}

/// The best bid's price is at least every other bid price, and the best
/// ask's price at most every other ask price, whenever the side is
/// non-empty.
pub proof fn lemma_best_level_dominates(b: &Orderbook)
    requires
        b.wf(),
    ensures
        forall|i: int| 0 <= i < b.bids@.len() ==> (#[trigger] b.bids@[i]).price
            <= b.bids@[0].price,
        forall|i: int| 0 <= i < b.asks@.len() ==> (#[trigger] b.asks@[i]).price
            >= b.asks@[0].price,
{
    assert forall|i: int| 0 <= i < b.bids@.len() implies (#[trigger] b.bids@[i]).price
        <= b.bids@[0].price by {
        if i > 0 {
            assert(b.bids@[0].price > b.bids@[i].price);
        }
    }
    assert forall|i: int| 0 <= i < b.asks@.len() implies (#[trigger] b.asks@[i]).price
        >= b.asks@[0].price by {
        if i > 0 {
            assert(b.asks@[0].price < b.asks@[i].price);
        }
    }
}

/// A side whose prices all lie in `[lo, hi]` has its notional between
/// `lo * depth` and `hi * depth`: its quantity-weighted average price,
/// `notional / depth`, lies within the side's price range.
pub proof fn lemma_notional_within_price_bounds(s: Seq<PriceLevel>, lo: u64, hi: u64)
    requires
        forall|i: int| 0 <= i < s.len() ==> lo <= (#[trigger] s[i]).price <= hi,
    ensures
        lo * total_quantity(s) <= total_notional(s) <= hi * total_quantity(s),
    decreases s.len(),
{
    if s.len() == 0 {
    } else {
        let pre = s.drop_last();
        assert forall|i: int| 0 <= i < pre.len() implies lo <= (#[trigger] pre[i]).price <= hi by {
            assert(pre[i] == s[i]);
        }
        lemma_notional_within_price_bounds(pre, lo, hi);
        let q = s.last().quantity as int;
        assert(lo <= s.last().price <= hi);
        assert(lo * total_quantity(s) <= total_notional(s) <= hi * total_quantity(s))
            by (nonlinear_arith)
            requires
                total_quantity(s) == total_quantity(pre) + q,
                total_notional(s) == total_notional(pre) + s.last().price * q,
                lo * total_quantity(pre) <= total_notional(pre) <= hi * total_quantity(pre),
                lo <= s.last().price <= hi,
                q >= 0,
        ;
    }
}

/// The depth-weighted bid price lies within the bid side's price range:
/// the lowest bid price times the depth bounds the notional from below,
/// the highest from above. Symmetrically for the asks.
pub proof fn lemma_weighted_price_within_range(b: &Orderbook)
    requires
        b.wf(),
    ensures
        b.bids@.len() > 0 ==> b.bids@.last().price * total_quantity(b.bids@) <= total_notional(
            b.bids@,
        ) <= b.bids@[0].price * total_quantity(b.bids@),
        b.asks@.len() > 0 ==> b.asks@[0].price * total_quantity(b.asks@) <= total_notional(
            b.asks@,
        ) <= b.asks@.last().price * total_quantity(b.asks@),
{
    if b.bids@.len() > 0 {
        assert forall|i: int|
            0 <= i < b.bids@.len() implies b.bids@.last().price <= (#[trigger] b.bids@[i]).price
            <= b.bids@[0].price by {
            if i > 0 {
                assert(b.bids@[0].price > b.bids@[i].price);
            }
            if i < b.bids@.len() - 1 {
                assert(b.bids@[i].price > b.bids@[b.bids@.len() - 1].price);
            }
        }
        lemma_notional_within_price_bounds(b.bids@, b.bids@.last().price, b.bids@[0].price);
    }
    if b.asks@.len() > 0 {
        assert forall|i: int|
            0 <= i < b.asks@.len() implies b.asks@[0].price <= (#[trigger] b.asks@[i]).price
            <= b.asks@.last().price by {
            if i > 0 {
                assert(b.asks@[0].price < b.asks@[i].price);
            }
            if i < b.asks@.len() - 1 {
                assert(b.asks@[i].price < b.asks@[b.asks@.len() - 1].price);
            }
        }
        lemma_notional_within_price_bounds(b.asks@, b.asks@[0].price, b.asks@.last().price);
    }
}

/// Two sides ordered in the same direction and holding the same entry at
/// every price are the same sequence: a side is canonically determined by
/// its contents.
pub proof fn lemma_entries_determine_side(s: Seq<PriceLevel>, t: Seq<PriceLevel>, descending: bool)
    requires
        sorted_by_price(s, descending),
        sorted_by_price(t, descending),
        forall|p: u64| #[trigger] entry(s, p) == entry(t, p),
    ensures
        s == t,
    decreases s.len(),
{
    lemma_sorted_distinct(s, descending);
    lemma_sorted_distinct(t, descending);
    if s.len() == 0 {
        if t.len() > 0 {
            lemma_entry_at_index(t, 0);
            assert(entry(s, t[0].price) is None);
            assert(false);
        }
        assert(s =~= t);
    } else if t.len() == 0 {
        lemma_entry_at_index(s, 0);
        assert(entry(t, s[0].price) is None);
        assert(false);
    } else {
        lemma_entry_at_index(s, 0);
        lemma_entry_at_index(t, 0);
        lemma_entry_index(t, s[0].price);
        lemma_entry_index(s, t[0].price);
        let i = choose|i: int| 0 <= i < t.len() && t[i].price == s[0].price && t[i].quantity
            == entry(t, s[0].price).unwrap();
        let k = choose|k: int| 0 <= k < s.len() && s[k].price == t[0].price && s[k].quantity
            == entry(s, t[0].price).unwrap();
        if i > 0 {
            assert(spec_price_before(t[0].price, t[i].price, descending));
        }
        if k > 0 {
            assert(spec_price_before(s[0].price, s[k].price, descending));
        }
        assert(s[0].price == t[0].price);
        assert(s[0] == t[0]);
        let s2 = s.drop_first();
        let t2 = t.drop_first();
        crate::model::lemma_distinct_drop_first(s);
        crate::model::lemma_distinct_drop_first(t);
        assert forall|p: u64| #[trigger] entry(s2, p) == entry(t2, p) by {
            if p == s[0].price {
                side_head_absent_in_tail(s);
                side_head_absent_in_tail(t);
            } else {
                assert(entry(s, p) == entry(s2, p));
                assert(entry(t, p) == entry(t2, p));
            }
        }
        assert forall|a: int, b2: int| 0 <= a < b2 < s2.len() implies (if descending {
            s2[a].price > s2[b2].price
        } else {
            s2[a].price < s2[b2].price
        }) by {
            assert(s2[a] == s[a + 1] && s2[b2] == s[b2 + 1]);
        }
        assert forall|a: int, b2: int| 0 <= a < b2 < t2.len() implies (if descending {
            t2[a].price > t2[b2].price
        } else {
            t2[a].price < t2[b2].price
        }) by {
            assert(t2[a] == t[a + 1] && t2[b2] == t[b2 + 1]);
        }
        lemma_entries_determine_side(s2, t2, descending);
        assert forall|k: int| 0 <= k < s.len() implies s[k] == t[k] by {
            if k > 0 {
                assert(s2[k - 1] == s[k]);
                assert(t2[k - 1] == t[k]);
            }
        }
        assert(s =~= t);
    }
}

/// The strict order between two prices on a side, in the side's direction.
spec fn spec_price_before(a: u64, b: u64, descending: bool) -> bool {
    if descending {
        a > b
    } else {
        a < b
    }
}

/// With distinct prices, the head's price never recurs in the tail, so the
/// tail holds no entry for it.
proof fn side_head_absent_in_tail(s: Seq<PriceLevel>)
    requires
        crate::model::distinct_prices(s),
        s.len() > 0,
    ensures
        entry(s.drop_first(), s[0].price) is None,
{
    if entry(s.drop_first(), s[0].price) is Some {
        lemma_entry_index(s.drop_first(), s[0].price);
        let i = choose|i: int|
            0 <= i < s.drop_first().len() && s.drop_first()[i].price == s[0].price;
        assert(s[i + 1].price == s[0].price);
        assert(false);
    }
}

/// Applying the identical snapshot twice in succession yields a book state
/// equal to applying it once: a snapshot's outcome is determined by the
/// update lists alone — never by the book it lands on — and a well-formed
/// side is canonically determined by its contents.
pub proof fn lemma_snapshot_idempotent(
    b1: &Orderbook,
    b2: &Orderbook,
    bids: Seq<(u64, u64)>,
    asks: Seq<(u64, u64)>,
)
    requires
        b1.wf(),
        b2.wf(),
        forall|p: u64| #[trigger] entry(b1.bids@, p) == updates_result(None, bids, p),
        forall|p: u64| #[trigger] entry(b1.asks@, p) == updates_result(None, asks, p),
        forall|p: u64| #[trigger] entry(b2.bids@, p) == updates_result(None, bids, p),
        forall|p: u64| #[trigger] entry(b2.asks@, p) == updates_result(None, asks, p),
    ensures
        b1.bids@ == b2.bids@,
        b1.asks@ == b2.asks@,
{
    lemma_entries_determine_side(b1.bids@, b2.bids@, true);
    lemma_entries_determine_side(b1.asks@, b2.asks@, false);
}

/// A simulated market order asking for strictly more than the side's whole
/// depth returns the empty result, on either side.
pub proof fn lemma_overdeep_order_unfilled(b: &Orderbook, q: u64)
    requires
        b.wf(),
    ensures
        q > total_quantity(b.asks@) ==> consume(b.asks@, q as int) is None,
        q > total_quantity(b.bids@) ==> consume(b.bids@, q as int) is None,
{
    lemma_consume_defined(b.asks@, q as int);
    lemma_consume_defined(b.bids@, q as int);
}

/// A simulated market order for exactly the side's depth consumes every
/// level: it pays the side's whole notional — so its average price is the
/// total notional over the total quantity — and touches the final level's
/// price, on either side.
pub proof fn lemma_exact_depth_order(b: &Orderbook)
    requires
        b.wf(),
    ensures
        b.asks@.len() > 0 ==> consume(b.asks@, total_quantity(b.asks@)) == Some(
            (total_notional(b.asks@), b.asks@.last().price),
        ),
        b.bids@.len() > 0 ==> consume(b.bids@, total_quantity(b.bids@)) == Some(
            (total_notional(b.bids@), b.bids@.last().price),
        ),
{
    if b.asks@.len() > 0 {
        lemma_consume_full_depth(b.asks@);
    }
    if b.bids@.len() > 0 {
        lemma_consume_full_depth(b.bids@);
    }
}

} // verus!
