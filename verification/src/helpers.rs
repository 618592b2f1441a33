//! Bid validation, ordering, proportional allocation, and the
//! feasibility predicate over basket supply.

use vstd::prelude::*;
use crate::model::{
    Bid, Basket, AssetInfo, FRACTION_SCALE, spec_bid_valid, frac_of, clone_bid, clone_asset,
};
use crate::assoc::AssocMap;

verus! {

/// A bid counts for a basket when it names the basket's id and passes
/// the validity predicate.
pub open spec fn bid_ok(b: Bid, basket: Basket) -> bool {
    b.basket_id == basket.id && spec_bid_valid(b)
}

/// The subsequence of bids that count for the basket, in input order.
pub open spec fn valid_bids_for(bids: Seq<Bid>, basket: Basket) -> Seq<Bid>
    decreases bids.len(),
{
    if bids.len() == 0 {
        Seq::empty()
    } else {
        let rest = valid_bids_for(bids.drop_last(), basket);
        if bid_ok(bids.last(), basket) {
            rest.push(bids.last())
        } else {
            rest
        }
    }
}

/// Every bid the validator lets through is valid for the basket and
/// came from the input: in particular its price is positive and its
/// fraction, if present, lies in `(0, 1]`.
pub proof fn lemma_valid_bids_ok(bids: Seq<Bid>, basket: Basket)
    ensures
        forall|i: int|
            0 <= i < valid_bids_for(bids, basket).len() ==> bid_ok(
                #[trigger] valid_bids_for(bids, basket)[i],
                basket,
            ) && bids.contains(valid_bids_for(bids, basket)[i]),
        forall|i: int|
            0 <= i < valid_bids_for(bids, basket).len() ==> (#[trigger] valid_bids_for(
                bids,
                basket,
            )[i]).price > 0 && 0 < frac_of(valid_bids_for(bids, basket)[i]) <= FRACTION_SCALE,
    decreases bids.len(),
{
    if bids.len() > 0 {
        lemma_valid_bids_ok(bids.drop_last(), basket);
        assert(forall|i: int|
            0 <= i < bids.drop_last().len() ==> bids.contains(#[trigger] bids.drop_last()[i]));
        assert(bids.contains(bids.last()));
    }
}

/// Every bid the validator lets through has a positive price and a
/// fraction, if present, in `(0, 1]`.
pub proof fn lemma_valid_bids_bounds(bids: Seq<Bid>, basket: Basket)
    ensures
        forall|i: int|
            0 <= i < valid_bids_for(bids, basket).len() ==> (#[trigger] valid_bids_for(
                bids,
                basket,
            )[i]).price > 0 && 0 < frac_of(valid_bids_for(bids, basket)[i]) <= FRACTION_SCALE,
    decreases bids.len(),
{
    if bids.len() > 0 {
        lemma_valid_bids_bounds(bids.drop_last(), basket);
    }
}

/// Keeps the bids that match the basket's id and are valid,
/// preserving their order.
pub fn filter_valid_bids(bids: &Vec<Bid>, basket: &Basket) -> (r: Vec<Bid>)
    ensures
        r@ == valid_bids_for(bids@, *basket),
{
    let n = bids.len();
    let mut out: Vec<Bid> = Vec::new();
    let mut i: usize = 0;
    while i < n
        invariant
            0 <= i <= n,
            n == bids@.len(),
            out@ == valid_bids_for(bids@.subrange(0, i as int), *basket),
        decreases n - i,
    {
        proof {
            assert(bids@.subrange(0, i + 1).drop_last() =~= bids@.subrange(0, i as int));
            assert(bids@.subrange(0, i + 1).last() == bids@[i as int]);
        }
        if bids[i].basket_id == basket.id && bids[i].is_valid() {
            out.push(clone_bid(&bids[i]));
        }
        i = i + 1;
    }
    proof {
        assert(bids@.subrange(0, n as int) =~= bids@);
    }
    out
}

/// Descending order by price.
pub open spec fn sorted_desc(s: Seq<Bid>) -> bool {
    forall|i: int, j: int| 0 <= i < j < s.len() ==> (#[trigger] s[i]).price >= (#[trigger] s[j]).price
}

/// Sorts bids by price, highest first; ties keep no particular order.
/// The result holds exactly the input bids.
pub fn sort_bids_by_price(bids: &Vec<Bid>) -> (r: Vec<Bid>)
    ensures
        r@.len() == bids@.len(),
        r@.to_multiset() == bids@.to_multiset(),
        sorted_desc(r@),
{
    let n = bids.len();
    let mut out: Vec<Bid> = Vec::new();
    let mut i: usize = 0;
    proof {
        Seq::to_multiset_ensures(out@);
        Seq::to_multiset_ensures(bids@.subrange(0, 0));
        assert(out@.to_multiset() =~= bids@.subrange(0, 0).to_multiset());
    }
    while i < n
        invariant
            0 <= i <= n,
            n == bids@.len(),
            out@.len() == i,
            out@.to_multiset() == bids@.subrange(0, i as int).to_multiset(),
            sorted_desc(out@),
        decreases n - i,
    {
        let b = clone_bid(&bids[i]);
        let k = find_insert_pos(&out, b.price);
        proof {
            vstd::seq_lib::to_multiset_insert(out@, k as int, b);
            vstd::seq_lib::to_multiset_build(bids@.subrange(0, i as int), bids@[i as int]);
            assert(bids@.subrange(0, i + 1) =~= bids@.subrange(0, i as int).push(bids@[i as int]));
        }
        let ghost old_out = out@;
        out.insert(k, b);
        proof {
            assert forall|p: int, q: int| 0 <= p < q < out@.len() implies (#[trigger] out@[p]).price
                >= (#[trigger] out@[q]).price by {
                if q < k {
                    assert(out@[p] == old_out[p] && out@[q] == old_out[q]);
                } else if p > k {
                    assert(out@[p] == old_out[p - 1] && out@[q] == old_out[q - 1]);
                } else if p < k && q == k {
                    assert(out@[p] == old_out[p]);
                } else if p == k && q > k {
                    assert(out@[q] == old_out[q - 1]);
                    assert(old_out[q - 1].price <= old_out[k as int].price);
                } else if p < k && q > k {
                    assert(out@[p] == old_out[p] && out@[q] == old_out[q - 1]);
                }
            }
        }
        i = i + 1;
    }
    proof {
        assert(bids@.subrange(0, n as int) =~= bids@);
        Seq::to_multiset_ensures(out@);
        Seq::to_multiset_ensures(bids@);
    }
    out
}

/// The position before the first bid priced strictly below `price`,
/// in a vector sorted by descending price.
fn find_insert_pos(out: &Vec<Bid>, price: u64) -> (k: usize)
    ensures
        0 <= k <= out@.len(),
        forall|j: int| 0 <= j < k ==> (#[trigger] out@[j]).price >= price,
        k < out@.len() ==> out@[k as int].price < price,
{
    let m = out.len();
    let mut k: usize = 0;
    while k < m
        invariant
            0 <= k <= m,
            m == out@.len(),
            forall|j: int| 0 <= j < k ==> (#[trigger] out@[j]).price >= price,
        decreases m - k,
    {
        if out[k].price < price {
            return k;
        }
        k = k + 1;
    }
    m
}

/// The highest-priced bid, if any; among equal prices no particular
/// one is promised.
pub fn get_highest_bid<'a>(bids: &'a Vec<Bid>) -> (r: Option<&'a Bid>)
    ensures
        match r {
            Some(b) => bids@.contains(*b) && forall|i: int|
                0 <= i < bids@.len() ==> (#[trigger] bids@[i]).price <= b.price,
            None => bids@.len() == 0,
        },
{
    let n = bids.len();
    if n == 0 {
        return None;
    }
    let mut best: usize = 0;
    let mut i: usize = 1;
    while i < n
        invariant
            0 <= best < i <= n,
            n == bids@.len(),
            forall|j: int| 0 <= j < i ==> (#[trigger] bids@[j]).price <= bids@[best as int].price,
        decreases n - i,
    {
        if bids[i].price > bids[best].price {
            best = i;
        }
        i = i + 1;
    }
    Some(&bids[best])
}

/// The highest valid bid for the basket, if any.
pub fn evaluate_xor_bids(bids: &Vec<Bid>, basket: &Basket) -> (r: Option<Bid>)
    ensures
        match r {
            Some(b) => valid_bids_for(bids@, *basket).contains(b) && forall|i: int|
                0 <= i < valid_bids_for(bids@, *basket).len() ==> (#[trigger] valid_bids_for(
                    bids@,
                    *basket,
                )[i]).price <= b.price,
            None => valid_bids_for(bids@, *basket).len() == 0,
        },
{
    let valid = filter_valid_bids(bids, basket);
    let highest = get_highest_bid(&valid);
    match highest {
        Some(b) => Some(clone_bid(b)),
        None => None,
    }
}

/// The scaled quantity of one basket constituent that a bid demands:
/// the bid's fraction of the constituent's quantity, rounded down.
pub open spec fn demand_of(b: Bid, a: AssetInfo) -> int {
    frac_of(b) * a.quantity / FRACTION_SCALE as int
}

/// The bundle allocated to a bid: every basket constituent scaled by
/// the bid's fraction, at the constituent's unit price.
pub open spec fn bundle_for(b: Bid, basket: Basket) -> Seq<AssetInfo> {
    Seq::new(
        basket.assets@.len(),
        |i: int|
            AssetInfo {
                asset: basket.assets@[i].asset,
                quantity: demand_of(b, basket.assets@[i]) as u64,
                price: basket.assets@[i].price,
            },
    )
}

/// Computes the bundle for one bid.
fn bundle_of_bid(b: &Bid, basket: &Basket) -> (r: Vec<AssetInfo>)
    requires
        frac_of(*b) <= FRACTION_SCALE,
    ensures
        r@ == bundle_for(*b, *basket),
{
    let proportion: u64 = match b.quantity {
        Some(q) => q,
        None => FRACTION_SCALE,
    };
    let n = basket.assets.len();
    let mut out: Vec<AssetInfo> = Vec::new();
    let mut i: usize = 0;
    while i < n
        invariant
            0 <= i <= n,
            n == basket.assets@.len(),
            proportion as int == frac_of(*b),
            proportion <= FRACTION_SCALE,
            out@.len() == i,
            forall|j: int| 0 <= j < i ==> out@[j] == bundle_for(*b, *basket)[j],
        decreases n - i,
    {
        let a = &basket.assets[i];
        proof {
            lemma_demand_bound(proportion as int, a.quantity as int);
        }
        let q: u64 = ((proportion as u128) * (a.quantity as u128) / (FRACTION_SCALE as u128)) as u64;
        out.push(AssetInfo { asset: clone_asset(&a.asset), quantity: q, price: a.price });
        i = i + 1;
    }
    proof {
        assert(out@ =~= bundle_for(*b, *basket));
    }
    out
}

/// A fraction of a `u64` quantity, rounded down, stays a `u64`.
pub proof fn lemma_demand_bound(f: int, q: int)
    requires
        0 <= f <= FRACTION_SCALE,
        0 <= q <= u64::MAX,
    ensures
        0 <= f * q,
        0 <= f * q / (FRACTION_SCALE as int) <= q,
{
    assert(f * q >= 0) by (nonlinear_arith)
        requires
            0 <= f,
            0 <= q,
    ;
    vstd::arithmetic::div_mod::lemma_div_pos_is_pos(f * q, FRACTION_SCALE as int);
    assert(f * q <= (FRACTION_SCALE as int) * q) by (nonlinear_arith)
        requires
            0 <= q,
            f <= FRACTION_SCALE,
    ;
    vstd::arithmetic::div_mod::lemma_div_is_ordered(
        f * q,
        (FRACTION_SCALE as int) * q,
        FRACTION_SCALE as int,
    );
    vstd::arithmetic::div_mod::lemma_div_multiples_vanish(q, FRACTION_SCALE as int);
}

/// Maps each bidder to the bundle of their last bid in the list,
/// scaled by that bid's fraction. The allocation is an intent report;
/// no balances move here.
pub fn allocate_basket(bids: &Vec<Bid>, basket: &Basket) -> (r: AssocMap<Vec<AssetInfo>>)
    requires
        forall|i: int| 0 <= i < bids@.len() ==> frac_of(#[trigger] bids@[i]) <= FRACTION_SCALE,
    ensures
        r.wf(),
        forall|uid: u64|
            r@.contains_key(uid) <==> exists|i: int|
                0 <= i < bids@.len() && (#[trigger] bids@[i]).user.id == uid,
        forall|i: int|
            0 <= i < bids@.len() && (forall|j: int|
                i < j < bids@.len() ==> (#[trigger] bids@[j]).user.id != bids@[i].user.id)
                ==> r@[(#[trigger] bids@[i]).user.id]@ == bundle_for(bids@[i], *basket),
{
    let n = bids.len();
    let mut out: AssocMap<Vec<AssetInfo>> = AssocMap::new();
    let mut i: usize = 0;
    while i < n
        invariant
            0 <= i <= n,
            n == bids@.len(),
            out.wf(),
            forall|i0: int| 0 <= i0 < n ==> frac_of(#[trigger] bids@[i0]) <= FRACTION_SCALE,
            forall|uid: u64|
                out@.contains_key(uid) <==> exists|j: int|
                    0 <= j < i && (#[trigger] bids@[j]).user.id == uid,
            forall|j: int|
                0 <= j < i && (forall|k: int|
                    j < k < i ==> (#[trigger] bids@[k]).user.id != bids@[j].user.id) ==> out@[(
                #[trigger] bids@[j]).user.id]@ == bundle_for(bids@[j], *basket),
        decreases n - i,
    {
        let bundle = bundle_of_bid(&bids[i], basket);
        out.upsert(bids[i].user.id, bundle);
        i = i + 1;
    }
    out
}

/// Sum over the bids of the scaled demand they place on one basket
/// constituent.
pub open spec fn total_demand(bids: Seq<Bid>, a: AssetInfo) -> int
    decreases bids.len(),
{
    if bids.len() == 0 {
        0
    } else {
        total_demand(bids.drop_last(), a) + demand_of(bids.last(), a)
    }
}

/// Aggregate demand never exceeds supply for any constituent.
pub open spec fn spec_can_fulfill(bids: Seq<Bid>, basket: Basket) -> bool {
    forall|k: int|
        0 <= k < basket.assets@.len() ==> total_demand(bids, #[trigger] basket.assets@[k])
            <= basket.assets@[k].quantity
}

/// Demands are nonnegative and bounded by the constituent's quantity,
/// so the running total fits easily in 128 bits.
proof fn lemma_total_demand_bound(bids: Seq<Bid>, a: AssetInfo)
    requires
        forall|i: int| 0 <= i < bids.len() ==> frac_of(#[trigger] bids[i]) <= FRACTION_SCALE,
        forall|i: int| 0 <= i < bids.len() ==> frac_of(#[trigger] bids[i]) >= 0,
    ensures
        0 <= total_demand(bids, a) <= bids.len() * (u64::MAX as int),
    decreases bids.len(),
{
    if bids.len() > 0 {
        lemma_total_demand_bound(bids.drop_last(), a);
        lemma_demand_bound(frac_of(bids.last()), a.quantity as int);
        assert((bids.len() - 1) * (u64::MAX as int) + (u64::MAX as int) == bids.len() * (
        u64::MAX as int)) by (nonlinear_arith);
    }
}

/// True exactly when the bids' aggregate per-asset demand stays within
/// the basket's supply.
pub fn can_fulfill(bids: &Vec<Bid>, basket: &Basket) -> (r: bool)
    requires
        forall|i: int| 0 <= i < bids@.len() ==> frac_of(#[trigger] bids@[i]) <= FRACTION_SCALE,
    ensures
        r == spec_can_fulfill(bids@, *basket),
{
    let m = basket.assets.len();
    let n = bids.len();
    let mut k: usize = 0;
    while k < m
        invariant
            0 <= k <= m,
            m == basket.assets@.len(),
            n == bids@.len(),
            forall|i: int| 0 <= i < bids@.len() ==> frac_of(#[trigger] bids@[i]) <= FRACTION_SCALE,
            forall|k0: int|
                0 <= k0 < k ==> total_demand(bids@, #[trigger] basket.assets@[k0])
                    <= basket.assets@[k0].quantity,
        decreases m - k,
    {
        let a = &basket.assets[k];
        let mut sum: u128 = 0;
        let mut i: usize = 0;
        proof {
            lemma_total_demand_bound(bids@.subrange(0, 0), *a);
        }
        while i < n
            invariant
                0 <= i <= n,
                n == bids@.len(),
                m == basket.assets@.len(),
                0 <= k < m,
                a == basket.assets@[k as int],
                forall|i0: int|
                    0 <= i0 < bids@.len() ==> frac_of(#[trigger] bids@[i0]) <= FRACTION_SCALE,
                sum == total_demand(bids@.subrange(0, i as int), *a),
                sum <= i * (u64::MAX as int),
            decreases n - i,
        {
            let b = &bids[i];
            let proportion: u64 = match b.quantity {
                Some(q) => q,
                None => FRACTION_SCALE,
            };
            proof {
                lemma_demand_bound(proportion as int, a.quantity as int);
                assert(bids@.subrange(0, i + 1).drop_last() =~= bids@.subrange(0, i as int));
                assert(i * (u64::MAX as int) + (u64::MAX as int) == (i + 1) * (u64::MAX as int))
                    by (nonlinear_arith);
            }
            let d: u128 = (proportion as u128) * (a.quantity as u128) / (FRACTION_SCALE as u128);
            sum = sum + d;
            i = i + 1;
        }
        proof {
            assert(bids@.subrange(0, n as int) =~= bids@);
        }
        if sum > a.quantity as u128 {
            return false;
        }
        k = k + 1;
    }
    true
}

/// All valid bids for the basket, in input order; every one of them is
/// independently acceptable.
pub fn evaluate_or_bids(bids: &Vec<Bid>, basket: &Basket) -> (r: Vec<Bid>)
    ensures
        r@ == valid_bids_for(bids@, *basket),
{
    filter_valid_bids(bids, basket)
}

/// The highest valid bid together with its proportional allocation.
pub fn evaluate_partial_xor_bids(bids: &Vec<Bid>, basket: &Basket) -> (r: Option<
    (Bid, AssocMap<Vec<AssetInfo>>),
>)
    ensures
        match r {
            Some(p) => {
                &&& valid_bids_for(bids@, *basket).contains(p.0)
                &&& (forall|i: int|
                    0 <= i < valid_bids_for(bids@, *basket).len() ==> (#[trigger] valid_bids_for(
                        bids@,
                        *basket,
                    )[i]).price <= p.0.price)
                &&& p.1.wf()
                &&& p.1@.contains_key(p.0.user.id)
                &&& p.1@[p.0.user.id]@ == bundle_for(p.0, *basket)
            },
            None => valid_bids_for(bids@, *basket).len() == 0,
        },
{
    let highest = evaluate_xor_bids(bids, basket);
    match highest {
        Some(b) => {
            proof {
                lemma_valid_bids_ok(bids@, *basket);
                let v = valid_bids_for(bids@, *basket);
                let w = choose|i: int| 0 <= i < v.len() && v[i] == b;
                assert(frac_of(b) <= FRACTION_SCALE);
            }
            let winners = vec_of_one(clone_bid(&b));
            let allocation = allocate_basket(&winners, basket);
            proof {
                assert(winners@[0] == b);
                assert(allocation@[b.user.id]@ == bundle_for(b, *basket));
            }
            Some((b, allocation))
        },
        None => None,
    }
}

/// A vector holding exactly one bid.
fn vec_of_one(b: Bid) -> (r: Vec<Bid>)
    ensures
        r@ =~= seq![b],
{
    let mut out: Vec<Bid> = Vec::new();
    out.push(b);
    out
}

/// All valid bids and the proportional allocation that gives each
/// bidder their latest bid's share.
pub fn evaluate_partial_or_bids(bids: &Vec<Bid>, basket: &Basket) -> (r: (
    Vec<Bid>,
    AssocMap<Vec<AssetInfo>>,
))
    ensures
        r.0@ == valid_bids_for(bids@, *basket),
        r.1.wf(),
        forall|uid: u64|
            r.1@.contains_key(uid) <==> exists|i: int|
                0 <= i < r.0@.len() && (#[trigger] r.0@[i]).user.id == uid,
        forall|i: int|
            0 <= i < r.0@.len() && (forall|j: int|
                i < j < r.0@.len() ==> (#[trigger] r.0@[j]).user.id != r.0@[i].user.id) ==> r.1@[(
            #[trigger] r.0@[i]).user.id]@ == bundle_for(r.0@[i], *basket),
{
    let valid = filter_valid_bids(bids, basket);
    proof {
        lemma_valid_bids_ok(bids@, *basket);
    }
    let allocation = allocate_basket(&valid, basket);
    (valid, allocation)
}

/// Sum over a sequence of bids of each bid's estimated share of the
/// basket's value.
pub open spec fn sum_estimates(s: Seq<Bid>, basket: Basket) -> int
    decreases s.len(),
{
    if s.len() == 0 {
        0
    } else {
        sum_estimates(s.drop_last(), basket) + s.last().spec_estimate_value(basket)
    }
}

/// Total estimated value of the valid bids for the basket.
pub fn total_value_of_bids_for_basket(bids: &Vec<Bid>, basket: &Basket) -> (r: u128)
    requires
        basket.wf(),
    ensures
        r == sum_estimates(valid_bids_for(bids@, *basket), *basket),
{
    let valid = filter_valid_bids(bids, basket);
    proof {
        lemma_valid_bids_ok(bids@, *basket);
    }
    let n = valid.len();
    let mut sum: u128 = 0;
    let mut i: usize = 0;
    while i < n
        invariant
            0 <= i <= n,
            n == valid@.len(),
            basket.wf(),
            forall|j: int| 0 <= j < n ==> frac_of(#[trigger] valid@[j]) <= FRACTION_SCALE,
            sum == sum_estimates(valid@.subrange(0, i as int), *basket),
            sum <= i * (u64::MAX as int),
        decreases n - i,
    {
        let v = valid[i].estimate_value_of_bid(basket);
        proof {
            assert(valid@.subrange(0, i + 1).drop_last() =~= valid@.subrange(0, i as int));
            assert(i * (u64::MAX as int) + (u64::MAX as int) == (i + 1) * (u64::MAX as int))
                by (nonlinear_arith);
        }
        sum = sum + v as u128;
        i = i + 1;
    }
    proof {
        assert(valid@.subrange(0, n as int) =~= valid@);
    }
    sum
}

} // verus!
