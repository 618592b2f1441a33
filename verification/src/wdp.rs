//! Winner determination: the solver family over validated bids.

use vstd::prelude::*;
use crate::model::{Bid, Basket, AssetInfo, FRACTION_SCALE, frac_of, clone_bid};
use crate::helpers::{
    filter_valid_bids, get_highest_bid, allocate_basket, can_fulfill, valid_bids_for,
    lemma_valid_bids_ok, demand_of, bundle_for, spec_can_fulfill,
};
use crate::assoc::AssocMap;

verus! {

/// Sum of the prices of a sequence of bids.
pub open spec fn sum_prices(s: Seq<Bid>) -> int
    decreases s.len(),
{
    if s.len() == 0 {
        0
    } else {
        sum_prices(s.drop_last()) + s.last().price
    }
}

/// A price sum over at most `len` bids stays within 128 bits.
pub proof fn lemma_sum_prices_len_bound(s: Seq<Bid>)
    ensures
        0 <= sum_prices(s) <= s.len() * (u64::MAX as int),
    decreases s.len(),
{
    if s.len() > 0 {
        lemma_sum_prices_len_bound(s.drop_last());
        assert((s.len() - 1) * (u64::MAX as int) + (u64::MAX as int) == s.len() * (
        u64::MAX as int)) by (nonlinear_arith);
    }
}

/// Adds up the prices of the given bids.
fn welfare_of(bids: &Vec<Bid>) -> (r: u128)
    ensures
        r == sum_prices(bids@),
{
    let n = bids.len();
    let mut sum: u128 = 0;
    let mut i: usize = 0;
    while i < n
        invariant
            0 <= i <= n,
            n == bids@.len(),
            sum == sum_prices(bids@.subrange(0, i as int)),
            sum <= i * (u64::MAX as int),
        decreases n - i,
    {
        proof {
            assert(bids@.subrange(0, i + 1).drop_last() =~= bids@.subrange(0, i as int));
            assert(i * (u64::MAX as int) + (u64::MAX as int) == (i + 1) * (u64::MAX as int))
                by (nonlinear_arith);
        }
        sum = sum + bids[i].price as u128;
        i = i + 1;
    }
    proof {
        assert(bids@.subrange(0, n as int) =~= bids@);
    }
    sum
}

/// Copies a vector of bids, element for element.
fn clone_bids(bids: &Vec<Bid>) -> (r: Vec<Bid>)
    ensures
        r@ == bids@,
{
    let n = bids.len();
    let mut out: Vec<Bid> = Vec::new();
    let mut i: usize = 0;
    while i < n
        invariant
            0 <= i <= n,
            n == bids@.len(),
            out@ =~= bids@.subrange(0, i as int),
        decreases n - i,
    {
        out.push(clone_bid(&bids[i]));
        proof {
            assert(out@ =~= bids@.subrange(0, i + 1));
        }
        i = i + 1;
    }
    proof {
        assert(bids@.subrange(0, n as int) =~= bids@);
    }
    out
}

/// The per-asset supplies of a basket, in basket order.
pub open spec fn supplies_of(basket: Basket) -> Seq<u64> {
    Seq::new(basket.assets@.len(), |k: int| basket.assets@[k].quantity)
}

/// A bid fits when its demand on every asset is within the remaining
/// supply.
pub open spec fn greedy_fits(b: Bid, basket: Basket, remaining: Seq<u64>) -> bool {
    forall|k: int|
        0 <= k < basket.assets@.len() ==> demand_of(b, #[trigger] basket.assets@[k])
            <= remaining[k]
}

/// Supplies left after serving a bid that fits.
pub open spec fn greedy_deduct(b: Bid, basket: Basket, remaining: Seq<u64>) -> Seq<u64> {
    Seq::new(remaining.len(), |k: int| (remaining[k] - demand_of(b, basket.assets@[k])) as u64)
}

/// The greedy winner set: bids are scanned in order; one is accepted
/// when its bidder has not won yet and its demand fits the remaining
/// supply of every asset, which it then uses up.
pub open spec fn greedy_winners(
    bids: Seq<Bid>,
    basket: Basket,
    remaining: Seq<u64>,
    chosen: Seq<u64>,
) -> Seq<Bid>
    decreases bids.len(),
{
    if bids.len() == 0 {
        Seq::empty()
    } else {
        let b = bids.first();
        let rest = bids.drop_first();
        if !chosen.contains(b.user.id) && greedy_fits(b, basket, remaining) {
            seq![b] + greedy_winners(
                rest,
                basket,
                greedy_deduct(b, basket, remaining),
                chosen.push(b.user.id),
            )
        } else {
            greedy_winners(rest, basket, remaining, chosen)
        }
    }
}

/// Every greedy winner is one of the scanned bids.
pub proof fn lemma_greedy_winners_from(
    bids: Seq<Bid>,
    basket: Basket,
    remaining: Seq<u64>,
    chosen: Seq<u64>,
)
    ensures
        forall|i: int|
            0 <= i < greedy_winners(bids, basket, remaining, chosen).len() ==> bids.contains(
                #[trigger] greedy_winners(bids, basket, remaining, chosen)[i],
            ),
    decreases bids.len(),
{
    if bids.len() > 0 {
        let b = bids.first();
        let rest = bids.drop_first();
        assert(bids[0] == b);
        assert forall|j: int| 0 <= j < rest.len() implies bids.contains(#[trigger] rest[j]) by {
            assert(bids[j + 1] == rest[j]);
        }
        if !chosen.contains(b.user.id) && greedy_fits(b, basket, remaining) {
            lemma_greedy_winners_from(
                rest,
                basket,
                greedy_deduct(b, basket, remaining),
                chosen.push(b.user.id),
            );
            let sub = greedy_winners(
                rest,
                basket,
                greedy_deduct(b, basket, remaining),
                chosen.push(b.user.id),
            );
            let res = seq![b] + sub;
            assert(greedy_winners(bids, basket, remaining, chosen) == res);
            assert forall|i: int| 0 <= i < res.len() implies bids.contains(#[trigger] res[i]) by {
                if i == 0 {
                    assert(res[0] == b);
                    assert(bids[0] == b);
                } else {
                    assert(res[i] == sub[i - 1]);
                    assert(rest.contains(sub[i - 1]));
                    let j = choose|j: int| 0 <= j < rest.len() && rest[j] == sub[i - 1];
                    assert(bids[j + 1] == rest[j]);
                }
            }
        } else {
            lemma_greedy_winners_from(rest, basket, remaining, chosen);
            let res = greedy_winners(rest, basket, remaining, chosen);
            assert(greedy_winners(bids, basket, remaining, chosen) == res);
            assert forall|i: int| 0 <= i < res.len() implies bids.contains(#[trigger] res[i]) by {
                assert(rest.contains(res[i]));
                let j = choose|j: int| 0 <= j < rest.len() && rest[j] == res[i];
                assert(bids[j + 1] == rest[j]);
            }
        }
    }
}

/// Demand of a prepended bid adds to the rest's demand.
proof fn lemma_total_demand_prepend(b: Bid, s: Seq<Bid>, a: AssetInfo)
    ensures
        crate::helpers::total_demand(seq![b] + s, a) == demand_of(b, a)
            + crate::helpers::total_demand(s, a),
    decreases s.len(),
{
    let both = seq![b] + s;
    if s.len() == 0 {
        assert(both.len() == 1);
        assert(both.last() == b);
        assert(both.drop_last() =~= Seq::<Bid>::empty());
        assert(crate::helpers::total_demand(both.drop_last(), a) == 0);
    } else {
        assert(both.len() == 1 + s.len());
        assert(both.drop_last() =~= seq![b] + s.drop_last());
        assert(both.last() == s.last());
        lemma_total_demand_prepend(b, s.drop_last(), a);
    }
}

/// The greedy winners never oversell: their aggregate demand on every
/// asset stays within the supply the scan started with.
pub proof fn lemma_greedy_winners_feasible(
    bids: Seq<Bid>,
    basket: Basket,
    remaining: Seq<u64>,
    chosen: Seq<u64>,
)
    requires
        remaining.len() == basket.assets@.len(),
    ensures
        forall|k: int|
            0 <= k < basket.assets@.len() ==> crate::helpers::total_demand(
                greedy_winners(bids, basket, remaining, chosen),
                #[trigger] basket.assets@[k],
            ) <= remaining[k],
    decreases bids.len(),
{
    if bids.len() > 0 {
        let b = bids.first();
        let rest = bids.drop_first();
        if !chosen.contains(b.user.id) && greedy_fits(b, basket, remaining) {
            let ded = greedy_deduct(b, basket, remaining);
            lemma_greedy_winners_feasible(rest, basket, ded, chosen.push(b.user.id));
            let sub = greedy_winners(rest, basket, ded, chosen.push(b.user.id));
            assert forall|k: int| 0 <= k < basket.assets@.len() implies
                crate::helpers::total_demand(seq![b] + sub, #[trigger] basket.assets@[k])
                <= remaining[k] by {
                lemma_total_demand_prepend(b, sub, basket.assets@[k]);
                assert(ded[k] == remaining[k] - demand_of(b, basket.assets@[k]));
            }
        } else {
            lemma_greedy_winners_feasible(rest, basket, remaining, chosen);
        }
    }
}

/// The greedy scan seats each bidder at most once, and never one whose
/// id was already taken.
pub proof fn lemma_greedy_winners_distinct(
    bids: Seq<Bid>,
    basket: Basket,
    remaining: Seq<u64>,
    chosen: Seq<u64>,
)
    ensures
        ({
            let w = greedy_winners(bids, basket, remaining, chosen);
            &&& (forall|i: int, j: int|
                0 <= i < j < w.len() ==> (#[trigger] w[i]).user.id != (#[trigger] w[j]).user.id)
            &&& (forall|i: int| 0 <= i < w.len() ==> !chosen.contains((#[trigger] w[i]).user.id))
        }),
    decreases bids.len(),
{
    if bids.len() > 0 {
        let b = bids.first();
        let rest = bids.drop_first();
        if !chosen.contains(b.user.id) && greedy_fits(b, basket, remaining) {
            let pushed = chosen.push(b.user.id);
            lemma_greedy_winners_distinct(
                rest,
                basket,
                greedy_deduct(b, basket, remaining),
                pushed,
            );
            let sub = greedy_winners(rest, basket, greedy_deduct(b, basket, remaining), pushed);
            let w = seq![b] + sub;
            assert(greedy_winners(bids, basket, remaining, chosen) == w);
            assert forall|i: int| 0 <= i < sub.len() implies (#[trigger] sub[i]).user.id
                != b.user.id && !chosen.contains(sub[i].user.id) by {
                assert(!pushed.contains(sub[i].user.id));
                assert(pushed[pushed.len() - 1] == b.user.id);
                if sub[i].user.id == b.user.id {
                    assert(pushed.contains(sub[i].user.id));
                }
                if chosen.contains(sub[i].user.id) {
                    let v = choose|v: int| 0 <= v < chosen.len() && chosen[v] == sub[i].user.id;
                    assert(pushed[v] == sub[i].user.id);
                }
            }
            assert forall|i: int, j: int| 0 <= i < j < w.len() implies (#[trigger] w[i]).user.id
                != (#[trigger] w[j]).user.id by {
                if i == 0 {
                    assert(w[j] == sub[j - 1]);
                } else {
                    assert(w[i] == sub[i - 1] && w[j] == sub[j - 1]);
                }
            }
            assert forall|i: int| 0 <= i < w.len() implies !chosen.contains(
                (#[trigger] w[i]).user.id,
            ) by {
                if i > 0 {
                    assert(w[i] == sub[i - 1]);
                }
            }
        } else {
            lemma_greedy_winners_distinct(rest, basket, remaining, chosen);
        }
    }
}

/// True when the vector holds the id.
fn contains_id(v: &Vec<u64>, id: u64) -> (r: bool)
    ensures
        r == v@.contains(id),
{
    let n = v.len();
    let mut i: usize = 0;
    while i < n
        invariant
            0 <= i <= n,
            n == v@.len(),
            forall|j: int| 0 <= j < i ==> v@[j] != id,
        decreases n - i,
    {
        if v[i] == id {
            return true;
        }
        i = i + 1;
    }
    false
}

/// Whether the bid's demand fits within every remaining supply.
fn bid_fits(b: &Bid, basket: &Basket, remaining: &Vec<u64>) -> (r: bool)
    requires
        frac_of(*b) <= FRACTION_SCALE,
        remaining@.len() == basket.assets@.len(),
    ensures
        r == greedy_fits(*b, *basket, remaining@),
{
    let proportion: u64 = match b.quantity {
        Some(q) => q,
        None => FRACTION_SCALE,
    };
    let m = basket.assets.len();
    let mut k: usize = 0;
    while k < m
        invariant
            0 <= k <= m,
            m == basket.assets@.len(),
            remaining@.len() == m,
            proportion as int == frac_of(*b),
            proportion <= FRACTION_SCALE,
            forall|k0: int|
                0 <= k0 < k ==> demand_of(*b, #[trigger] basket.assets@[k0]) <= remaining@[k0],
        decreases m - k,
    {
        let a = &basket.assets[k];
        proof {
            crate::helpers::lemma_demand_bound(proportion as int, a.quantity as int);
        }
        let d: u128 = (proportion as u128) * (a.quantity as u128) / (FRACTION_SCALE as u128);
        if d > remaining[k] as u128 {
            return false;
        }
        k = k + 1;
    }
    true
}

/// Subtracts the bid's demand from every remaining supply.
fn deduct_demand(b: &Bid, basket: &Basket, remaining: &Vec<u64>) -> (r: Vec<u64>)
    requires
        frac_of(*b) <= FRACTION_SCALE,
        remaining@.len() == basket.assets@.len(),
        greedy_fits(*b, *basket, remaining@),
    ensures
        r@ == greedy_deduct(*b, *basket, remaining@),
{
    let proportion: u64 = match b.quantity {
        Some(q) => q,
        None => FRACTION_SCALE,
    };
    let m = basket.assets.len();
    let mut out: Vec<u64> = Vec::new();
    let mut k: usize = 0;
    while k < m
        invariant
            0 <= k <= m,
            m == basket.assets@.len(),
            remaining@.len() == m,
            proportion as int == frac_of(*b),
            proportion <= FRACTION_SCALE,
            greedy_fits(*b, *basket, remaining@),
            out@.len() == k,
            forall|k0: int|
                0 <= k0 < k ==> out@[k0] == greedy_deduct(*b, *basket, remaining@)[k0],
        decreases m - k,
    {
        let a = &basket.assets[k];
        proof {
            crate::helpers::lemma_demand_bound(proportion as int, a.quantity as int);
            assert(demand_of(*b, basket.assets@[k as int]) <= remaining@[k as int]);
        }
        let d: u128 = (proportion as u128) * (a.quantity as u128) / (FRACTION_SCALE as u128);
        out.push(remaining[k] - (d as u64));
        k = k + 1;
    }
    proof {
        assert(out@ =~= greedy_deduct(*b, *basket, remaining@));
    }
    out
}

/// The winner-determination solver family. Each variant works on the
/// validator's output for one basket.
pub struct WDPSolver;

impl WDPSolver {
    /// Single winner: the highest-priced valid bid, ties in no
    /// particular order.
    pub fn solve_xor(bids: &Vec<Bid>, basket: &Basket) -> (r: Option<Bid>)
        ensures
            match r {
                Some(b) => valid_bids_for(bids@, *basket).contains(b) && forall|i: int|
                    0 <= i < valid_bids_for(bids@, *basket).len() ==> (#[trigger] valid_bids_for(
                        bids@,
                        *basket,
                    )[i]).price <= b.price,
                None => valid_bids_for(bids@, *basket).len() == 0,
            },
    {
        let valid = filter_valid_bids(bids, basket);
        match get_highest_bid(&valid) {
            Some(b) => Some(clone_bid(b)),
            None => None,
        }
    }

    /// Accept-all: every valid bid wins and is allocated its fraction,
    /// with no supply check.
    pub fn solve_or(bids: &Vec<Bid>, basket: &Basket) -> (r: (
        Vec<Bid>,
        AssocMap<Vec<AssetInfo>>,
    ))
        ensures
            r.0@ == valid_bids_for(bids@, *basket),
            r.1.wf(),
            forall|uid: u64|
                r.1@.contains_key(uid) <==> exists|i: int|
                    0 <= i < r.0@.len() && (#[trigger] r.0@[i]).user.id == uid,
            forall|i: int|
                0 <= i < r.0@.len() && (forall|j: int|
                    i < j < r.0@.len() ==> (#[trigger] r.0@[j]).user.id != r.0@[i].user.id)
                    ==> r.1@[(#[trigger] r.0@[i]).user.id]@ == bundle_for(r.0@[i], *basket),
    {
        let valid = filter_valid_bids(bids, basket);
        proof {
            lemma_valid_bids_ok(bids@, *basket);
        }
        let allocation = allocate_basket(&valid, basket);
        (valid, allocation)
    }

    /// The naive welfare oracle: accepts every valid bid and reports
    /// the sum of their prices as total welfare, ignoring capacity.
    pub fn maximize_welfare_vcg(bids: &Vec<Bid>, basket: &Basket) -> (r: (Vec<Bid>, u128))
        ensures
            r.0@ == valid_bids_for(bids@, *basket),
            r.1 == sum_prices(r.0@),
    {
        let valid = filter_valid_bids(bids, basket);
        let total = welfare_of(&valid);
        (valid, total)
    }

    /// Greedy capacity-respecting selection: valid bids are scanned in
    /// input order; a bid is accepted when its bidder has not won yet
    /// and its per-asset demand fits the remaining supply, which it
    /// then uses up. Greedy, not globally optimal.
    pub fn maximize_welfare_cca(bids: &Vec<Bid>, basket: &Basket) -> (r: (Vec<Bid>, u128))
        ensures
            r.0@ == greedy_winners(
                valid_bids_for(bids@, *basket),
                *basket,
                supplies_of(*basket),
                Seq::empty(),
            ),
            r.1 == sum_prices(r.0@),
    {
        let valid = filter_valid_bids(bids, basket);
        proof {
            lemma_valid_bids_ok(bids@, *basket);
        }
        let mut remaining: Vec<u64> = Vec::new();
        let m = basket.assets.len();
        let mut k: usize = 0;
        while k < m
            invariant
                0 <= k <= m,
                m == basket.assets@.len(),
                remaining@.len() == k,
                forall|k0: int| 0 <= k0 < k ==> remaining@[k0] == basket.assets@[k0].quantity,
            decreases m - k,
        {
            remaining.push(basket.assets[k].quantity);
            k = k + 1;
        }
        proof {
            assert(remaining@ =~= supplies_of(*basket));
        }
        let mut chosen: Vec<u64> = Vec::new();
        let mut winners: Vec<Bid> = Vec::new();
        let mut total: u128 = 0;
        let n = valid.len();
        let ghost all = valid@;
        proof {
            assert(all.subrange(0, n as int) =~= all);
            assert(chosen@ =~= Seq::<u64>::empty());
            assert(winners@ + greedy_winners(all, *basket, remaining@, chosen@) =~= greedy_winners(
                all,
                *basket,
                remaining@,
                chosen@,
            ));
        }
        let mut i: usize = 0;
        while i < n
            invariant
                0 <= i <= n,
                n == all.len(),
                valid@ == all,
                valid@ == valid_bids_for(bids@, *basket),
                forall|j: int| 0 <= j < n ==> frac_of(#[trigger] all[j]) <= FRACTION_SCALE,
                remaining@.len() == basket.assets@.len(),
                greedy_winners(all, *basket, supplies_of(*basket), Seq::empty()) == winners@
                    + greedy_winners(all.subrange(i as int, n as int), *basket, remaining@, chosen@),
                total == sum_prices(winners@),
                total <= winners@.len() * (u64::MAX as int),
                winners@.len() <= i,
            decreases n - i,
        {
            let ghost suffix = all.subrange(i as int, n as int);
            proof {
                assert(suffix.first() == all[i as int]);
                assert(suffix.drop_first() =~= all.subrange(i + 1, n as int));
            }
            let b = &valid[i];
            let ghost old_winners = winners@;
            let ghost old_chosen = chosen@;
            let ghost old_rem = remaining@;
            if !contains_id(&chosen, b.user.id) && bid_fits(b, basket, &remaining) {
                let new_remaining = deduct_demand(b, basket, &remaining);
                remaining = new_remaining;
                chosen.push(b.user.id);
                winners.push(clone_bid(b));
                proof {
                    let rest = greedy_winners(
                        all.subrange(i + 1, n as int),
                        *basket,
                        remaining@,
                        chosen@,
                    );
                    assert(greedy_winners(suffix, *basket, old_rem, old_chosen) == seq![
                        all[i as int],
                    ] + rest);
                    assert(winners@ =~= old_winners.push(all[i as int]));
                    assert(old_winners + (seq![all[i as int]] + rest) =~= winners@ + rest);
                    assert(winners@.drop_last() =~= old_winners);
                    assert(sum_prices(winners@) == sum_prices(old_winners) + all[i as int].price);
                    assert(old_winners.len() * (u64::MAX as int) + (u64::MAX as int)
                        == winners@.len() * (u64::MAX as int)) by (nonlinear_arith)
                        requires
                            winners@.len() == old_winners.len() + 1,
                    ;
                }
                total = total + b.price as u128;
            }
            i = i + 1;
        }
        proof {
            assert(all.subrange(n as int, n as int) =~= Seq::<Bid>::empty());
            assert(winners@ + Seq::<Bid>::empty() =~= winners@);
        }
        (winners, total)
    }

    /// Exhaustive include/exclude search over the valid bids: explores
    /// every subset, checks feasibility at the leaves, and keeps the
    /// best feasible total price seen. The empty set is always
    /// feasible, so a best subset always exists; it is exponential in
    /// the number of bids.
    pub fn branch_and_bound(bids: &Vec<Bid>, basket: &Basket) -> (r: (Vec<Bid>, u128))
        ensures
            r.1 == search_best(valid_bids_for(bids@, *basket), *basket, 0, Seq::empty()),
            spec_can_fulfill(r.0@, *basket),
            r.1 == sum_prices(r.0@),
            forall|i: int|
                0 <= i < r.0@.len() ==> valid_bids_for(bids@, *basket).contains(
                    #[trigger] r.0@[i],
                ),
    {
        let valid = filter_valid_bids(bids, basket);
        proof {
            lemma_valid_bids_ok(bids@, *basket);
        }
        let mut cur: Vec<Bid> = Vec::new();
        let best = Self::search(&valid, basket, 0, &mut cur);
        match best {
            Some(p) => p,
            None => {
                proof {
                    lemma_search_skips_to_leaf(valid@, *basket, 0, Seq::empty());
                    assert(forall|a: AssetInfo|
                        crate::helpers::total_demand(Seq::<Bid>::empty(), a) == 0);
                    assert(spec_can_fulfill(Seq::<Bid>::empty(), *basket));
                    assert(false);
                }
                (Vec::new(), 0)
            },
        }
    }

    /// One node of the include/exclude search: returns the best
    /// feasible completion of `cur` using the bids from `level` on, or
    /// nothing when no completion is feasible. `cur` is restored before
    /// returning.
    fn search(valid: &Vec<Bid>, basket: &Basket, level: usize, cur: &mut Vec<Bid>) -> (best: Option<
        (Vec<Bid>, u128),
    >)
        requires
            level <= valid@.len(),
            forall|i: int|
                0 <= i < valid@.len() ==> frac_of(#[trigger] valid@[i]) <= FRACTION_SCALE,
            forall|i: int|
                0 <= i < old(cur)@.len() ==> frac_of(#[trigger] old(cur)@[i]) <= FRACTION_SCALE,
        ensures
            final(cur)@ == old(cur)@,
            match best {
                Some(p) => {
                    &&& p.1 == search_best(valid@, *basket, level as int, old(cur)@)
                    &&& spec_can_fulfill(p.0@, *basket)
                    &&& p.1 == sum_prices(p.0@)
                    &&& (forall|i: int|
                        0 <= i < p.0@.len() ==> old(cur)@.contains(#[trigger] p.0@[i])
                            || valid@.contains(p.0@[i]))
                },
                None => search_best(valid@, *basket, level as int, old(cur)@) == -1,
            },
        decreases valid@.len() - level,
    {
        if level == valid.len() {
            if can_fulfill(cur, basket) {
                let value = welfare_of(cur);
                let copy = clone_bids(cur);
                proof {
                    assert forall|i: int| 0 <= i < copy@.len() implies old(cur)@.contains(
                        #[trigger] copy@[i],
                    ) || valid@.contains(copy@[i]) by {
                        assert(old(cur)@[i] == copy@[i]);
                    }
                }
                return Some((copy, value));
            } else {
                return None;
            }
        }
        let skip = Self::search(valid, basket, level + 1, cur);
        let ghost before_push = cur@;
        cur.push(clone_bid(&valid[level]));
        proof {
            assert forall|j: int| 0 <= j < cur@.len() implies frac_of(#[trigger] cur@[j])
                <= FRACTION_SCALE by {
                if j < cur@.len() - 1 {
                    assert(cur@[j] == before_push[j]);
                }
            }
        }
        let take = Self::search(valid, basket, level + 1, cur);
        cur.pop();
        proof {
            assert(cur@ =~= old(cur)@);
            if take is Some {
                let p = take->Some_0;
                assert forall|i: int| 0 <= i < p.0@.len() implies old(cur)@.contains(
                    #[trigger] p.0@[i],
                ) || valid@.contains(p.0@[i]) by {
                    if before_push.push(valid@[level as int]).contains(p.0@[i]) {
                        let w = choose|w: int|
                            0 <= w < before_push.push(valid@[level as int]).len()
                                && before_push.push(valid@[level as int])[w] == p.0@[i];
                        if w < before_push.len() {
                            assert(old(cur)@[w] == p.0@[i]);
                        } else {
                            assert(p.0@[i] == valid@[level as int]);
                        }
                    }
                }
            }
        }
        match (skip, take) {
            (None, None) => None,
            (Some(a), None) => Some(a),
            (None, Some(b)) => Some(b),
            (Some(a), Some(b)) => if b.1 > a.1 {
                Some(b)
            } else {
                Some(a)
            },
        }
    }

    /// Capacity-discretized knapsack over the valid bids: the whole
    /// basket is one hundred capacity units and each bid weighs its
    /// fraction rounded up to hundredths, so any selection that fits is
    /// feasible against every asset's supply. Maximizes the total price
    /// within that budget by dynamic programming and reconstructs one
    /// best selection.
    pub fn dynamic_programming(bids: &Vec<Bid>, basket: &Basket) -> (r: (Vec<Bid>, u128))
        ensures
            r.1 == knap_best(
                valid_bids_for(bids@, *basket),
                valid_bids_for(bids@, *basket).len() as int,
                100,
            ),
            r.1 == sum_prices(r.0@),
            sum_weights(r.0@) <= 100,
            spec_can_fulfill(r.0@, *basket),
            forall|i: int|
                0 <= i < r.0@.len() ==> valid_bids_for(bids@, *basket).contains(
                    #[trigger] r.0@[i],
                ),
    {
        let valid = filter_valid_bids(bids, basket);
        proof {
            lemma_valid_bids_ok(bids@, *basket);
        }
        let ghost all = valid@;
        let n = valid.len();
        // dp[i][c]: best total price using the first i bids within capacity c
        let mut dp: Vec<Vec<u128>> = Vec::new();
        let mut zeros: Vec<u128> = Vec::new();
        let mut c0: usize = 0;
        while c0 <= 100
            invariant
                0 <= c0 <= 101,
                zeros@.len() == c0,
                forall|c: int| 0 <= c < c0 ==> #[trigger] zeros@[c] == 0,
            decreases 101 - c0,
        {
            zeros.push(0);
            c0 = c0 + 1;
        }
        dp.push(zeros);
        let mut i: usize = 0;
        while i < n
            invariant
                0 <= i <= n,
                n == all.len(),
                valid@ == all,
                forall|j: int| 0 <= j < n ==> 0 < frac_of(#[trigger] all[j]) <= FRACTION_SCALE,
                dp@.len() == i + 1,
                forall|i0: int| 0 <= i0 <= i ==> (#[trigger] dp@[i0])@.len() == 101,
                forall|i0: int, c: int|
                    0 <= i0 <= i && 0 <= c <= 100 ==> #[trigger] (dp@[i0])@[c] == knap_best(
                        all,
                        i0,
                        c,
                    ),
            decreases n - i,
        {
            let w = weight_of(&valid[i]);
            let price = valid[i].price;
            let mut row: Vec<u128> = Vec::new();
            let mut c: usize = 0;
            while c <= 100
                invariant
                    0 <= c <= 101,
                    0 <= i < n,
                    n == all.len(),
                    valid@ == all,
                    w == bid_weight(all[i as int]),
                    1 <= w <= 100,
                    price == all[i as int].price,
                    dp@.len() == i + 1,
                    forall|i0: int| 0 <= i0 <= i ==> (#[trigger] dp@[i0])@.len() == 101,
                    forall|i0: int, c1: int|
                        0 <= i0 <= i && 0 <= c1 <= 100 ==> #[trigger] (dp@[i0])@[c1] == knap_best(
                            all,
                            i0,
                            c1,
                        ),
                    row@.len() == c,
                    forall|c1: int| 0 <= c1 < c ==> #[trigger] row@[c1] == knap_best(all, i + 1, c1),
                decreases 101 - c,
            {
                proof {
                    lemma_knap_best_bound(all, i as int, c as int);
                    lemma_knap_best_bound(all, i as int, c - bid_weight(all[i as int]));
                    assert((i as int) * (u64::MAX as int) + (u64::MAX as int) <= (all.len() as int)
                        * (u64::MAX as int)) by (nonlinear_arith)
                        requires
                            0 <= i < all.len(),
                    ;
                }
                let prev = &dp[i];
                let skip = prev[c];
                let value: u128 = if (w as usize) <= c {
                    let take = prev[c - w as usize] + price as u128;
                    if take > skip {
                        take
                    } else {
                        skip
                    }
                } else {
                    skip
                };
                row.push(value);
                c = c + 1;
            }
            dp.push(row);
            i = i + 1;
        }
        // reconstruct one best selection by walking the table back
        let mut selected: Vec<Bid> = Vec::new();
        let mut bi: usize = n;
        let mut cap: usize = 100;
        let best = dp[n][100];
        while bi > 0
            invariant
                0 <= bi <= n,
                0 <= cap <= 100,
                n == all.len(),
                valid@ == all,
                forall|j: int| 0 <= j < n ==> 0 < frac_of(#[trigger] all[j]) <= FRACTION_SCALE,
                dp@.len() == n + 1,
                forall|i0: int| 0 <= i0 <= n ==> (#[trigger] dp@[i0])@.len() == 101,
                forall|i0: int, c1: int|
                    0 <= i0 <= n && 0 <= c1 <= 100 ==> #[trigger] (dp@[i0])@[c1] == knap_best(
                        all,
                        i0,
                        c1,
                    ),
                best == knap_best(all, n as int, 100),
                sum_prices(selected@) + knap_best(all, bi as int, cap as int) == best,
                sum_weights(selected@) + cap <= 100,
                forall|j: int|
                    0 <= j < selected@.len() ==> 0 < frac_of(#[trigger] selected@[j])
                        <= FRACTION_SCALE,
                forall|j: int| 0 <= j < selected@.len() ==> all.contains(#[trigger] selected@[j]),
            decreases bi,
        {
            let here = dp[bi][cap];
            let above = dp[bi - 1][cap];
            if here == above {
                bi = bi - 1;
            } else {
                let w = weight_of(&valid[bi - 1]);
                proof {
                    assert(bid_weight(all[bi - 1]) <= cap as int);
                    assert(knap_best(all, bi as int, cap as int) == knap_best(
                        all,
                        bi - 1,
                        cap - bid_weight(all[bi - 1]),
                    ) + all[bi - 1].price);
                }
                let ghost old_sel = selected@;
                selected.push(clone_bid(&valid[bi - 1]));
                proof {
                    assert(selected@.drop_last() =~= old_sel);
                    assert(all[bi - 1] == selected@.last());
                    assert(all.contains(selected@.last()));
                }
                cap = cap - w as usize;
                bi = bi - 1;
            }
        }
        proof {
            lemma_knap_best_bound(all, 0, cap as int);
            lemma_weights_feasible(selected@, *basket);
        }
        (selected, best)
    }
}

/// Best total price over the include/exclude tree rooted at `i` with
/// the partial selection `cur`: at a leaf the selection counts only
/// when it is feasible; an infeasible leaf scores below every feasible
/// one.
pub open spec fn search_best(bids: Seq<Bid>, basket: Basket, i: int, cur: Seq<Bid>) -> int
    decreases bids.len() - i,
{
    if i < 0 || i >= bids.len() {
        if spec_can_fulfill(cur, basket) {
            sum_prices(cur)
        } else {
            -1
        }
    } else {
        let skip = search_best(bids, basket, i + 1, cur);
        let take = search_best(bids, basket, i + 1, cur.push(bids[i]));
        if take > skip {
            take
        } else {
            skip
        }
    }
}

/// The all-exclude path bounds the tree's best from below.
proof fn lemma_search_skips_to_leaf(bids: Seq<Bid>, basket: Basket, i: int, cur: Seq<Bid>)
    requires
        0 <= i <= bids.len(),
    ensures
        search_best(bids, basket, i, cur) >= if spec_can_fulfill(cur, basket) {
            sum_prices(cur)
        } else {
            -1
        },
    decreases bids.len() - i,
{
    if i < bids.len() {
        lemma_search_skips_to_leaf(bids, basket, i + 1, cur);
    }
}


/// A bid's discretized capacity weight: its basket fraction rounded up
/// to whole hundredths. A valid bid weighs between one and one hundred.
pub open spec fn bid_weight(b: Bid) -> int {
    (frac_of(b) * 100 + FRACTION_SCALE - 1) / (FRACTION_SCALE as int)
}

/// Sum of the discretized weights of a sequence of bids.
pub open spec fn sum_weights(s: Seq<Bid>) -> int
    decreases s.len(),
{
    if s.len() == 0 {
        0
    } else {
        sum_weights(s.drop_last()) + bid_weight(s.last())
    }
}

/// Sum of the scaled fractions of a sequence of bids.
pub open spec fn sum_fracs(s: Seq<Bid>) -> int
    decreases s.len(),
{
    if s.len() == 0 {
        0
    } else {
        sum_fracs(s.drop_last()) + frac_of(s.last())
    }
}

/// The best total price reachable from the first `i` bids within
/// remaining discretized capacity `c`: the knapsack recurrence.
pub open spec fn knap_best(bids: Seq<Bid>, i: int, c: int) -> int
    decreases i,
{
    if i <= 0 {
        0
    } else {
        let skip = knap_best(bids, i - 1, c);
        if bid_weight(bids[i - 1]) <= c {
            let take = knap_best(bids, i - 1, c - bid_weight(bids[i - 1])) + bids[i - 1].price;
            if take > skip {
                take
            } else {
                skip
            }
        } else {
            skip
        }
    }
}

/// Knapsack values are nonnegative and grow at most linearly with the
/// number of bids considered.
proof fn lemma_knap_best_bound(bids: Seq<Bid>, i: int, c: int)
    requires
        i <= bids.len(),
    ensures
        0 <= knap_best(bids, i, c) <= (if i >= 0 {
            i
        } else {
            0
        }) * (u64::MAX as int),
    decreases i,
{
    if i > 0 {
        lemma_knap_best_bound(bids, i - 1, c);
        if bid_weight(bids[i - 1]) <= c {
            lemma_knap_best_bound(bids, i - 1, c - bid_weight(bids[i - 1]));
        }
        assert((i - 1) * (u64::MAX as int) + (u64::MAX as int) == i * (u64::MAX as int))
            by (nonlinear_arith);
    }
}

/// Rounding a fraction up to hundredths never undercounts: one
/// hundredth of the scale times the weight covers the fraction.
proof fn lemma_weight_covers_frac(b: Bid)
    requires
        frac_of(b) >= 0,
    ensures
        bid_weight(b) * (FRACTION_SCALE as int) >= frac_of(b) * 100,
{
    let a = frac_of(b) * 100 + FRACTION_SCALE - 1;
    vstd::arithmetic::div_mod::lemma_fundamental_div_mod(a, FRACTION_SCALE as int);
    assert(bid_weight(b) * (FRACTION_SCALE as int) == (FRACTION_SCALE as int) * bid_weight(b))
        by (nonlinear_arith);
}

/// Summed weights cover summed fractions.
proof fn lemma_weights_cover_fracs(s: Seq<Bid>)
    requires
        forall|i: int| 0 <= i < s.len() ==> frac_of(#[trigger] s[i]) >= 0,
    ensures
        sum_weights(s) * (FRACTION_SCALE as int) >= sum_fracs(s) * 100,
    decreases s.len(),
{
    if s.len() > 0 {
        lemma_weights_cover_fracs(s.drop_last());
        lemma_weight_covers_frac(s.last());
        assert((sum_weights(s.drop_last()) + bid_weight(s.last())) * (FRACTION_SCALE as int)
            == sum_weights(s.drop_last()) * (FRACTION_SCALE as int) + bid_weight(s.last()) * (
        FRACTION_SCALE as int)) by (nonlinear_arith);
        assert((sum_fracs(s.drop_last()) + frac_of(s.last())) * 100 == sum_fracs(s.drop_last())
            * 100 + frac_of(s.last()) * 100) by (nonlinear_arith);
    }
}

/// Floors add up below the floor of the sum.
proof fn lemma_div_add(a: int, b: int, s: int)
    requires
        a >= 0,
        b >= 0,
        s >= 1,
    ensures
        a / s + b / s <= (a + b) / s,
{
    vstd::arithmetic::div_mod::lemma_fundamental_div_mod(a, s);
    vstd::arithmetic::div_mod::lemma_fundamental_div_mod(b, s);
    vstd::arithmetic::div_mod::lemma_div_pos_is_pos(a, s);
    vstd::arithmetic::div_mod::lemma_div_pos_is_pos(b, s);
    let q = a / s + b / s;
    assert(a + b >= s * q) by (nonlinear_arith)
        requires
            a == s * (a / s) + a % s,
            b == s * (b / s) + b % s,
            a % s >= 0,
            b % s >= 0,
            q == a / s + b / s,
    ;
    vstd::arithmetic::div_mod::lemma_div_is_ordered(s * q, a + b, s);
    vstd::arithmetic::div_mod::lemma_div_multiples_vanish(q, s);
}

/// The total scaled demand a set of bids places on one asset is at most
/// the sum of their fractions, scaled onto the asset's quantity.
proof fn lemma_demand_le_frac_share(s: Seq<Bid>, a: AssetInfo)
    requires
        forall|i: int| 0 <= i < s.len() ==> frac_of(#[trigger] s[i]) >= 0,
    ensures
        crate::helpers::total_demand(s, a) <= sum_fracs(s) * a.quantity / (FRACTION_SCALE as int),
    decreases s.len(),
{
    if s.len() > 0 {
        lemma_demand_le_frac_share(s.drop_last(), a);
        lemma_sum_fracs_nonneg(s.drop_last());
        assert(frac_of(s.last()) * a.quantity >= 0) by (nonlinear_arith)
            requires
                frac_of(s.last()) >= 0,
                a.quantity >= 0,
        ;
        assert(sum_fracs(s.drop_last()) * a.quantity >= 0) by (nonlinear_arith)
            requires
                sum_fracs(s.drop_last()) >= 0,
                a.quantity >= 0,
        ;
        lemma_div_add(
            sum_fracs(s.drop_last()) * a.quantity,
            frac_of(s.last()) * a.quantity,
            FRACTION_SCALE as int,
        );
        assert((sum_fracs(s.drop_last()) + frac_of(s.last())) * a.quantity == sum_fracs(
            s.drop_last(),
        ) * a.quantity + frac_of(s.last()) * a.quantity) by (nonlinear_arith);
    }
}

/// Fraction sums are nonnegative.
proof fn lemma_sum_fracs_nonneg(s: Seq<Bid>)
    requires
        forall|i: int| 0 <= i < s.len() ==> frac_of(#[trigger] s[i]) >= 0,
    ensures
        sum_fracs(s) >= 0,
    decreases s.len(),
{
    if s.len() > 0 {
        lemma_sum_fracs_nonneg(s.drop_last());
    }
}

/// A selection whose discretized weights fit the whole-basket capacity
/// is feasible: its aggregate demand stays within every asset's supply.
pub proof fn lemma_weights_feasible(s: Seq<Bid>, basket: Basket)
    requires
        sum_weights(s) <= 100,
        forall|i: int| 0 <= i < s.len() ==> frac_of(#[trigger] s[i]) >= 0,
    ensures
        spec_can_fulfill(s, basket),
{
    lemma_weights_cover_fracs(s);
    lemma_sum_fracs_nonneg(s);
    assert(sum_fracs(s) * 100 <= 100 * (FRACTION_SCALE as int));
    assert(sum_fracs(s) <= FRACTION_SCALE) by (nonlinear_arith)
        requires
            sum_fracs(s) * 100 <= 100 * (FRACTION_SCALE as int),
    ;
    assert forall|k: int| 0 <= k < basket.assets@.len() implies crate::helpers::total_demand(
        s,
        #[trigger] basket.assets@[k],
    ) <= basket.assets@[k].quantity by {
        let a = basket.assets@[k];
        lemma_demand_le_frac_share(s, a);
        assert(sum_fracs(s) * a.quantity <= (FRACTION_SCALE as int) * a.quantity)
            by (nonlinear_arith)
            requires
                sum_fracs(s) <= FRACTION_SCALE,
                a.quantity >= 0,
        ;
        vstd::arithmetic::div_mod::lemma_div_is_ordered(
            sum_fracs(s) * a.quantity,
            (FRACTION_SCALE as int) * a.quantity,
            FRACTION_SCALE as int,
        );
        vstd::arithmetic::div_mod::lemma_div_multiples_vanish(
            a.quantity as int,
            FRACTION_SCALE as int,
        );
        assert(sum_fracs(s) * a.quantity >= 0) by (nonlinear_arith)
            requires
                sum_fracs(s) >= 0,
                a.quantity >= 0,
        ;
        vstd::arithmetic::div_mod::lemma_div_pos_is_pos(
            sum_fracs(s) * a.quantity,
            FRACTION_SCALE as int,
        );
    }
}

/// The discretized weight of a valid bid, computed exactly.
fn weight_of(b: &Bid) -> (r: u64)
    requires
        0 < frac_of(*b) <= FRACTION_SCALE,
    ensures
        r == bid_weight(*b),
        1 <= r <= 100,
{
    let proportion: u64 = match b.quantity {
        Some(q) => q,
        None => FRACTION_SCALE,
    };
    (proportion * 100 + FRACTION_SCALE - 1) / FRACTION_SCALE
}

} // verus!
