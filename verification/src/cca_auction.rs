//! The combinatorial clock auction: iterative rounds of demand
//! evaluation, multiplicative price adjustment on over-demanded assets,
//! and eligibility shrinkage, until no asset is over-demanded or the
//! round budget runs out. The terminal round's bids are solved with the
//! greedy capacity-respecting winner determination, allocated at the
//! discovered prices, and settled.
//!
//! Price discovery works on a side price table aligned with the
//! basket's assets; the basket's stored prices are never touched.

use vstd::prelude::*;
use crate::model::{User, Bid, Basket, AssetInfo, FRACTION_SCALE, frac_of, spec_bid_valid, clone_bid, clone_asset};
use crate::helpers::{valid_bids_for, demand_of};
use crate::wdp::{WDPSolver, greedy_winners, supplies_of, lemma_greedy_winners_from};
use crate::clearing::{Clearing, ClearingError, settle_res, has_bid};
use crate::assoc::AssocMap;

verus! {

/// Cap on the base price-increment rate: ten times the fraction scale,
/// a tenfold increase per round at most.
pub const MAX_RATE: u64 = 10_000_000;

/// Excess demand beyond this ceases to steepen the price step.
pub const EXCESS_CAP: u128 = 1_000_000_000_000;

/// The bids that count in a round: those from still-eligible bidders
/// that pass the validity predicate.
pub open spec fn round_bids_of(bids: Seq<Bid>, eligible: Seq<u64>) -> Seq<Bid>
    decreases bids.len(),
{
    if bids.len() == 0 {
        Seq::empty()
    } else {
        let rest = round_bids_of(bids.drop_last(), eligible);
        if eligible.contains(bids.last().user.id) && spec_bid_valid(bids.last()) {
            rest.push(bids.last())
        } else {
            rest
        }
    }
}

/// Whether the bidder placed at least one valid bid, at any eligibility.
pub open spec fn has_valid_bid(bids: Seq<Bid>, id: u64) -> bool {
    exists|i: int|
        0 <= i < bids.len() && (#[trigger] bids[i]).user.id == id && spec_bid_valid(bids[i])
}

/// An eligible bidder with a valid bid always has a bid in the round.
proof fn lemma_valid_bidder_in_round(bids: Seq<Bid>, eligible: Seq<u64>, id: u64)
    requires
        has_valid_bid(bids, id),
        eligible.contains(id),
    ensures
        has_bid(round_bids_of(bids, eligible), id),
    decreases bids.len(),
{
    let i = choose|i: int|
        0 <= i < bids.len() && (#[trigger] bids[i]).user.id == id && spec_bid_valid(bids[i]);
    let rb = round_bids_of(bids, eligible);
    if i == bids.len() - 1 {
        assert(rb.last().user.id == id);
        assert(rb[rb.len() - 1].user.id == id);
    } else {
        assert(bids.drop_last()[i].user.id == id && spec_bid_valid(bids.drop_last()[i]));
        assert(has_valid_bid(bids.drop_last(), id));
        lemma_valid_bidder_in_round(bids.drop_last(), eligible, id);
        let sub = round_bids_of(bids.drop_last(), eligible);
        let w = choose|w: int| 0 <= w < sub.len() && (#[trigger] sub[w]).user.id == id;
        assert(rb[w].user.id == id);
    }
}

/// Every bid kept for a round is valid and comes from an eligible
/// bidder.
pub proof fn lemma_round_bids_ok(bids: Seq<Bid>, eligible: Seq<u64>)
    ensures
        forall|i: int|
            0 <= i < round_bids_of(bids, eligible).len() ==> spec_bid_valid(
                #[trigger] round_bids_of(bids, eligible)[i],
            ) && eligible.contains(round_bids_of(bids, eligible)[i].user.id),
    decreases bids.len(),
{
    if bids.len() > 0 {
        lemma_round_bids_ok(bids.drop_last(), eligible);
    }
}

/// What one bid demands of an asset priced `p`: its requested fraction
/// capped by the fraction its price can afford, all scaled by
/// [`FRACTION_SCALE`].
pub open spec fn demand_term(b: Bid, p: u64) -> int {
    let affordable = b.price * FRACTION_SCALE / p as int;
    if frac_of(b) < affordable {
        frac_of(b)
    } else {
        affordable
    }
}

/// Aggregate scaled demand of a round's bids on an asset priced `p`.
pub open spec fn round_demand(s: Seq<Bid>, p: u64) -> int
    decreases s.len(),
{
    if s.len() == 0 {
        0
    } else {
        round_demand(s.drop_last(), p) + demand_term(s.last(), p)
    }
}

/// Excess demand of a round's bids on one asset: how far aggregate
/// demand exceeds the asset's supply, or zero.
pub open spec fn excess_for(s: Seq<Bid>, p: u64, supply: u64) -> int {
    if round_demand(s, p) > supply {
        round_demand(s, p) - supply
    } else {
        0
    }
}

/// No asset is over-demanded at the given prices.
pub open spec fn no_excess(s: Seq<Bid>, basket: Basket, prices: Seq<u64>) -> bool {
    forall|k: int|
        0 <= k < basket.assets@.len() ==> excess_for(
            s,
            prices[k],
            (#[trigger] basket.assets@[k]).quantity,
        ) == 0
}

/// Excess demand as an unsigned amount; it is nonnegative by
/// construction and far below the width of its carrier.
pub open spec fn excess_amount(s: Seq<Bid>, p: u64, supply: u64) -> u128 {
    excess_for(s, p, supply) as u128
}

/// The distinct bidder ids appearing in the bids, in first-seen order.
pub open spec fn distinct_ids(bids: Seq<Bid>) -> Seq<u64>
    decreases bids.len(),
{
    if bids.len() == 0 {
        Seq::empty()
    } else {
        let ids = distinct_ids(bids.drop_last());
        if ids.contains(bids.last().user.id) {
            ids
        } else {
            ids.push(bids.last().user.id)
        }
    }
}

/// The eligible ids that remain after a round: those with a bid among
/// the round's bids, in their existing order.
pub open spec fn kept_eligible(eligible: Seq<u64>, round: Seq<Bid>) -> Seq<u64>
    decreases eligible.len(),
{
    if eligible.len() == 0 {
        Seq::empty()
    } else {
        let rest = kept_eligible(eligible.drop_last(), round);
        if has_bid(round, eligible.last()) {
            rest.push(eligible.last())
        } else {
            rest
        }
    }
}

/// The price an over-demanded asset moves to: the current price raised
/// by the base rate steepened in proportion to the relative excess
/// demand, saturating at the largest representable price. An asset
/// without excess demand keeps its price.
pub open spec fn next_price_spec(p: u64, e: u128, base: u64) -> int {
    if e == 0 {
        p as int
    } else {
        let ec: int = if e > EXCESS_CAP {
            EXCESS_CAP as int
        } else {
            e as int
        };
        let inc: int = base + 10 * base * ec / (p * FRACTION_SCALE);
        let np: int = p + p * inc / (FRACTION_SCALE as int);
        if np > u64::MAX {
            u64::MAX as int
        } else {
            np
        }
    }
}

/// A price never moves down, and it stays positive.
pub proof fn lemma_next_price_monotone(p: u64, e: u128, base: u64)
    requires
        p >= 1,
        base <= MAX_RATE,
    ensures
        next_price_spec(p, e, base) >= p,
        next_price_spec(p, e, base) <= u64::MAX,
    decreases 0int,
{
    if e != 0 {
        let ec: int = if e > EXCESS_CAP {
            EXCESS_CAP as int
        } else {
            e as int
        };
        let denom = p * (FRACTION_SCALE as int);
        assert(denom >= FRACTION_SCALE) by (nonlinear_arith)
            requires
                p >= 1,
                denom == p * (FRACTION_SCALE as int),
        ;
        assert(10 * base * ec >= 0) by (nonlinear_arith)
            requires
                base >= 0,
                ec >= 0,
        ;
        vstd::arithmetic::div_mod::lemma_div_pos_is_pos(10 * base * ec, denom);
        let inc: int = base + 10 * base * ec / denom;
        assert(p * inc >= 0) by (nonlinear_arith)
            requires
                p >= 0,
                inc >= 0,
        ;
        vstd::arithmetic::div_mod::lemma_div_pos_is_pos(p * inc, FRACTION_SCALE as int);
    }
}

/// Computes the next price of one asset, exactly as
/// [`next_price_spec`] says.
fn next_price(p: u64, e: u128, base: u64) -> (r: u64)
    requires
        p >= 1,
        base <= MAX_RATE,
    ensures
        r == next_price_spec(p, e, base),
        r >= p,
{
    proof {
        lemma_next_price_monotone(p, e, base);
    }
    if e == 0 {
        return p;
    }
    let ec: u128 = if e > EXCESS_CAP {
        EXCESS_CAP
    } else {
        e
    };
    let denom: u128 = (p as u128) * (FRACTION_SCALE as u128);
    proof {
        assert((p as int) * (FRACTION_SCALE as int) <= 0x10000000000000000int
            * 1_000_000int) by (nonlinear_arith)
            requires
                p <= u64::MAX,
        ;
        assert(10 * (base as int) * (ec as int) <= 10 * 10_000_000int
            * 1_000_000_000_000int) by (nonlinear_arith)
            requires
                base <= MAX_RATE,
                ec <= EXCESS_CAP,
        ;
    }
    let steep: u128 = 10 * (base as u128) * ec / denom;
    proof {
        assert((FRACTION_SCALE as int) <= (p as int) * (FRACTION_SCALE as int))
            by (nonlinear_arith)
            requires
                p >= 1,
        ;
        assert(10 * (base as int) * (ec as int) >= 0) by (nonlinear_arith)
            requires
                base >= 0,
                ec >= 0,
        ;
        vstd::arithmetic::div_mod::lemma_div_is_ordered_by_denominator(
            10 * (base as int) * (ec as int),
            FRACTION_SCALE as int,
            (p as int) * (FRACTION_SCALE as int),
        );
        vstd::arithmetic::div_mod::lemma_div_is_ordered(
            10 * (base as int) * (ec as int),
            100_000_000_000_000_000_000int,
            FRACTION_SCALE as int,
        );
        assert(steep <= 100_000_000_000_000int);
    }
    let inc: u128 = (base as u128) + steep;
    proof {
        assert((p as int) * (inc as int) <= 0x10000000000000000int * (10_000_000int
            + 100_000_000_000_000int)) by (nonlinear_arith)
            requires
                p <= u64::MAX,
                inc <= 10_000_000 + 100_000_000_000_000,
        ;
    }
    let np: u128 = (p as u128) + (p as u128) * inc / (FRACTION_SCALE as u128);
    if np > u64::MAX as u128 {
        u64::MAX
    } else {
        np as u64
    }
}

/// The whole price table after one adjustment step against the round's
/// bids.
pub open spec fn next_prices_spec(
    prices: Seq<u64>,
    round: Seq<Bid>,
    basket: Basket,
    base: u64,
) -> Seq<u64> {
    Seq::new(
        prices.len(),
        |k: int|
            (next_price_spec(
                prices[k],
                excess_amount(round, prices[k], basket.assets@[k].quantity),
                base,
            )) as u64,
    )
}

/// The whole clock-auction run as a function of its inputs: the final
/// price table and eligible ids, the number of rounds that ran, and
/// whether the run ended because no asset was over-demanded. With no
/// round budget nothing changes; otherwise the run stops on the first
/// round without excess demand, or on the last permitted round.
pub open spec fn cca_run(
    bids: Seq<Bid>,
    basket: Basket,
    prices: Seq<u64>,
    eligible: Seq<u64>,
    base: u64,
    budget: nat,
) -> (Seq<u64>, Seq<u64>, nat, bool)
    decreases budget,
{
    if budget == 0 {
        (prices, eligible, 0nat, false)
    } else {
        let rb = round_bids_of(bids, eligible);
        if no_excess(rb, basket, prices) {
            (prices, eligible, 1nat, true)
        } else if budget == 1 {
            (prices, eligible, 1nat, false)
        } else {
            let sub = cca_run(
                bids,
                basket,
                next_prices_spec(prices, rb, basket, base),
                kept_eligible(eligible, rb),
                base,
                (budget - 1) as nat,
            );
            (sub.0, sub.1, (sub.2 + 1) as nat, sub.3)
        }
    }
}

/// The round evaluator's result: the bids that count this round, and
/// the per-asset excess demand, aligned with the basket's assets.
pub struct RoundEvaluation {
    pub valid_bids: Vec<Bid>,
    pub excess: Vec<u128>,
}

/// The allocation table maps exactly the winning bidders, each to the
/// bundle of their last winning bid priced from the table.
#[verifier::opaque]
pub open spec fn allocation_at_prices(
    winners: Seq<Bid>,
    basket: Basket,
    prices: Seq<u64>,
    a: Map<u64, Vec<AssetInfo>>,
) -> bool {
    &&& (forall|uid: u64|
        a.contains_key(uid) <==> exists|i: int|
            0 <= i < winners.len() && (#[trigger] winners[i]).user.id == uid)
    &&& (forall|i: int|
        0 <= i < winners.len() && (forall|j: int|
            i < j < winners.len() ==> (#[trigger] winners[j]).user.id != winners[i].user.id)
            ==> a[(#[trigger] winners[i]).user.id]@ == bundle_at_prices(
            winners[i],
            basket,
            prices,
        ))
}

/// The bundle a bid receives when allocated at a side price table: each
/// constituent scaled by the bid's fraction, priced from the table.
pub open spec fn bundle_at_prices(b: Bid, basket: Basket, prices: Seq<u64>) -> Seq<AssetInfo> {
    Seq::new(
        basket.assets@.len(),
        |k: int|
            AssetInfo {
                asset: basket.assets@[k].asset,
                quantity: demand_of(b, basket.assets@[k]) as u64,
                price: prices[k],
            },
    )
}

/// Everything a clock-auction run reports: the terminal round's bids,
/// the greedy winners among them, their allocation at the discovered
/// prices, the settled balances, the final price table and eligible
/// bidders, how many rounds ran, and whether the run converged (no
/// asset over-demanded) rather than exhausting its round budget.
pub struct CcaOutcome {
    pub round_bids: Vec<Bid>,
    pub winning_bids: Vec<Bid>,
    pub allocation: AssocMap<Vec<AssetInfo>>,
    pub settled: AssocMap<User>,
    pub final_prices: Vec<u64>,
    pub eligible: Vec<u64>,
    pub rounds_used: usize,
    pub converged: bool,
}

/// The iterative ascending-price auction orchestrator.
pub struct CombiClockAuction;

impl CombiClockAuction {
    /// Keeps the valid bids of still-eligible bidders and computes each
    /// asset's excess demand at the current prices.
    pub fn evaluate_bids_in_round(
        bids: &Vec<Bid>,
        basket: &Basket,
        prices: &Vec<u64>,
        eligible: &Vec<u64>,
    ) -> (r: RoundEvaluation)
        requires
            prices@.len() == basket.assets@.len(),
            forall|k: int| 0 <= k < prices@.len() ==> #[trigger] prices@[k] >= 1,
        ensures
            r.valid_bids@ == round_bids_of(bids@, eligible@),
            r.excess@.len() == basket.assets@.len(),
            forall|k: int|
                0 <= k < r.excess@.len() ==> r.excess@[k] == excess_for(
                    r.valid_bids@,
                    prices@[k],
                    (#[trigger] basket.assets@[k]).quantity,
                ),
    {
        let n = bids.len();
        let mut valid_bids: Vec<Bid> = Vec::new();
        let mut i: usize = 0;
        while i < n
            invariant
                0 <= i <= n,
                n == bids@.len(),
                valid_bids@ == round_bids_of(bids@.subrange(0, i as int), eligible@),
            decreases n - i,
        {
            proof {
                assert(bids@.subrange(0, i + 1).drop_last() =~= bids@.subrange(0, i as int));
                assert(bids@.subrange(0, i + 1).last() == bids@[i as int]);
            }
            if contains_id(eligible, bids[i].user.id) && bids[i].is_valid() {
                valid_bids.push(clone_bid(&bids[i]));
            }
            i = i + 1;
        }
        proof {
            assert(bids@.subrange(0, n as int) =~= bids@);
            lemma_round_bids_ok(bids@, eligible@);
        }
        let m = basket.assets.len();
        let nv = valid_bids.len();
        let mut excess: Vec<u128> = Vec::new();
        let mut k: usize = 0;
        while k < m
            invariant
                0 <= k <= m,
                m == basket.assets@.len(),
                prices@.len() == m,
                forall|k0: int| 0 <= k0 < m ==> #[trigger] prices@[k0] >= 1,
                nv == valid_bids@.len(),
                forall|j: int|
                    0 <= j < nv ==> 0 < frac_of(#[trigger] valid_bids@[j]) <= FRACTION_SCALE,
                excess@.len() == k,
                forall|k0: int|
                    0 <= k0 < k ==> excess@[k0] == excess_for(
                        valid_bids@,
                        prices@[k0],
                        (#[trigger] basket.assets@[k0]).quantity,
                    ),
            decreases m - k,
        {
            let p = prices[k];
            let mut demand: u128 = 0;
            let mut j: usize = 0;
            while j < nv
                invariant
                    0 <= j <= nv,
                    nv == valid_bids@.len(),
                    p >= 1,
                    forall|j0: int|
                        0 <= j0 < nv ==> 0 < frac_of(#[trigger] valid_bids@[j0]) <= FRACTION_SCALE,
                    demand == round_demand(valid_bids@.subrange(0, j as int), p),
                    demand <= j * (FRACTION_SCALE as int),
                decreases nv - j,
            {
                let b = &valid_bids[j];
                let proportion: u64 = match b.quantity {
                    Some(q) => q,
                    None => FRACTION_SCALE,
                };
                proof {
                    assert(valid_bids@.subrange(0, j + 1).drop_last() =~= valid_bids@.subrange(
                        0,
                        j as int,
                    ));
                    assert((b.price as int) * (FRACTION_SCALE as int) <= (u64::MAX as int)
                        * 1_000_000int) by (nonlinear_arith)
                        requires
                            b.price <= u64::MAX,
                    ;
                    vstd::arithmetic::div_mod::lemma_div_pos_is_pos(
                        (b.price as int) * (FRACTION_SCALE as int),
                        p as int,
                    );
                    assert(j * (FRACTION_SCALE as int) + (FRACTION_SCALE as int) == (j + 1) * (
                    FRACTION_SCALE as int)) by (nonlinear_arith);
                }
                let affordable: u128 = (b.price as u128) * (FRACTION_SCALE as u128) / (p as u128);
                let term: u128 = if (proportion as u128) < affordable {
                    proportion as u128
                } else {
                    affordable
                };
                demand = demand + term;
                j = j + 1;
            }
            proof {
                assert(valid_bids@.subrange(0, nv as int) =~= valid_bids@);
            }
            let supply = basket.assets[k].quantity;
            if demand > supply as u128 {
                excess.push(demand - supply as u128);
            } else {
                excess.push(0);
            }
            k = k + 1;
        }
        RoundEvaluation { valid_bids, excess }
    }

    /// Raises the price of every over-demanded asset; prices never move
    /// down.
    pub fn update_prices(prices: &Vec<u64>, excess: &Vec<u128>, base_rate: u64) -> (r: Vec<u64>)
        requires
            excess@.len() == prices@.len(),
            base_rate <= MAX_RATE,
            forall|k: int| 0 <= k < prices@.len() ==> #[trigger] prices@[k] >= 1,
        ensures
            r@.len() == prices@.len(),
            forall|k: int|
                0 <= k < r@.len() ==> r@[k] == next_price_spec(
                    (#[trigger] prices@[k]),
                    excess@[k],
                    base_rate,
                ),
            forall|k: int| 0 <= k < r@.len() ==> #[trigger] r@[k] >= prices@[k],
    {
        let m = prices.len();
        let mut out: Vec<u64> = Vec::new();
        let mut k: usize = 0;
        while k < m
            invariant
                0 <= k <= m,
                m == prices@.len(),
                excess@.len() == m,
                base_rate <= MAX_RATE,
                forall|k0: int| 0 <= k0 < m ==> #[trigger] prices@[k0] >= 1,
                out@.len() == k,
                forall|k0: int|
                    0 <= k0 < k ==> out@[k0] == next_price_spec(
                        (#[trigger] prices@[k0]),
                        excess@[k0],
                        base_rate,
                    ),
                forall|k0: int| 0 <= k0 < k ==> #[trigger] out@[k0] >= prices@[k0],
            decreases m - k,
        {
            let np = next_price(prices[k], excess[k], base_rate);
            out.push(np);
            k = k + 1;
        }
        out
    }

    /// Shrinks eligibility to the bidders that placed a valid bid this
    /// round: bid or lose the right to bid again.
    pub fn apply_activity_rule(eligible: &Vec<u64>, round_bids: &Vec<Bid>) -> (r: Vec<u64>)
        ensures
            r@ == kept_eligible(eligible@, round_bids@),
            forall|id: u64|
                r@.contains(id) <==> eligible@.contains(id) && has_bid(round_bids@, id),
    {
        let n = eligible.len();
        let mut out: Vec<u64> = Vec::new();
        let mut i: usize = 0;
        while i < n
            invariant
                0 <= i <= n,
                n == eligible@.len(),
                out@ == kept_eligible(eligible@.subrange(0, i as int), round_bids@),
                forall|id: u64|
                    out@.contains(id) <==> eligible@.subrange(0, i as int).contains(id) && has_bid(
                        round_bids@,
                        id,
                    ),
            decreases n - i,
        {
            let ghost old_out = out@;
            let ghost prefix = eligible@.subrange(0, i as int);
            let ghost prefix1 = eligible@.subrange(0, i + 1);
            if bidder_has_bid(round_bids, eligible[i]) {
                out.push(eligible[i]);
            }
            proof {
                assert(prefix1.drop_last() =~= prefix);
                assert forall|id: u64| out@.contains(id) implies prefix1.contains(id) && has_bid(
                    round_bids@,
                    id,
                ) by {
                    let w = choose|w: int| 0 <= w < out@.len() && out@[w] == id;
                    if w < old_out.len() {
                        assert(old_out[w] == id);
                        assert(old_out.contains(id));
                        let v = choose|v: int| 0 <= v < prefix.len() && prefix[v] == id;
                        assert(prefix1[v] == id);
                    } else {
                        assert(id == eligible@[i as int]);
                        assert(prefix1[i as int] == id);
                    }
                }
                assert forall|id: u64| prefix1.contains(id) && has_bid(round_bids@, id) implies
                    out@.contains(id) by {
                    let v = choose|v: int| 0 <= v < prefix1.len() && prefix1[v] == id;
                    if v < i {
                        assert(prefix[v] == id);
                        assert(prefix.contains(id));
                        assert(old_out.contains(id));
                        let w = choose|w: int| 0 <= w < old_out.len() && old_out[w] == id;
                        assert(out@[w] == id);
                    } else {
                        assert(id == eligible@[i as int]);
                        assert(out@[out@.len() - 1] == id);
                    }
                }
            }
            i = i + 1;
        }
        proof {
            assert(eligible@.subrange(0, n as int) =~= eligible@);
        }
        out
    }

    /// Allocates the basket to the winning bids at the side price
    /// table, each bidder keyed by id, a later bid replacing an earlier
    /// one.
    pub fn allocate_assets(
        winning_bids: &Vec<Bid>,
        basket: &Basket,
        final_prices: &Vec<u64>,
    ) -> (r: AssocMap<Vec<AssetInfo>>)
        requires
            final_prices@.len() == basket.assets@.len(),
            forall|i: int|
                0 <= i < winning_bids@.len() ==> frac_of(#[trigger] winning_bids@[i])
                    <= FRACTION_SCALE,
        ensures
            r.wf(),
            allocation_at_prices(winning_bids@, *basket, final_prices@, r@),
    {
        let n = winning_bids.len();
        let mut out: AssocMap<Vec<AssetInfo>> = AssocMap::new();
        let mut i: usize = 0;
        while i < n
            invariant
                0 <= i <= n,
                n == winning_bids@.len(),
                final_prices@.len() == basket.assets@.len(),
                out.wf(),
                forall|i0: int|
                    0 <= i0 < n ==> frac_of(#[trigger] winning_bids@[i0]) <= FRACTION_SCALE,
                forall|uid: u64|
                    out@.contains_key(uid) <==> exists|j: int|
                        0 <= j < i && (#[trigger] winning_bids@[j]).user.id == uid,
                forall|j: int|
                    0 <= j < i && (forall|k: int|
                        j < k < i ==> (#[trigger] winning_bids@[k]).user.id
                            != winning_bids@[j].user.id) ==> out@[(
                    #[trigger] winning_bids@[j]).user.id]@ == bundle_at_prices(
                        winning_bids@[j],
                        *basket,
                        final_prices@,
                    ),
            decreases n - i,
        {
            let bundle = bundle_of_bid_at(&winning_bids[i], basket, final_prices);
            out.upsert(winning_bids[i].user.id, bundle);
            i = i + 1;
        }
        proof {
            reveal(allocation_at_prices);
        }
        out
    }

    /// Runs the clock auction. Each round keeps the eligible bidders'
    /// valid bids and measures excess demand; when no asset is
    /// over-demanded, or when the last permitted round is reached, the
    /// round's bids are solved greedily, allocated at the current
    /// prices, and settled. Otherwise every over-demanded asset's price
    /// rises and bidders without a valid bid this round lose
    /// eligibility. With a zero round budget nothing runs and nothing
    /// is settled. A settlement shortfall aborts the run with a typed
    /// error and no balance changed anywhere.
    pub fn run_auction(
        bids: &Vec<Bid>,
        basket: &Basket,
        initial_prices: Vec<u64>,
        price_increment: u64,
        max_rounds: usize,
    ) -> (r: Result<CcaOutcome, ClearingError>)
        requires
            initial_prices@.len() == basket.assets@.len(),
            forall|k: int| 0 <= k < initial_prices@.len() ==> #[trigger] initial_prices@[k] >= 1,
            price_increment <= MAX_RATE,
        ensures
            match r {
                Ok(o) => {
                    &&& ({
                        let run = cca_run(
                            bids@,
                            *basket,
                            initial_prices@,
                            distinct_ids(bids@),
                            price_increment,
                            max_rounds as nat,
                        );
                        &&& o.final_prices@ == run.0
                        &&& o.eligible@ == run.1
                        &&& o.rounds_used as nat == run.2
                        &&& o.converged == run.3
                    })
                    &&& o.rounds_used <= max_rounds
                    &&& o.final_prices@.len() == initial_prices@.len()
                    &&& (forall|k: int|
                        0 <= k < o.final_prices@.len() ==> #[trigger] o.final_prices@[k]
                            >= initial_prices@[k])
                    &&& (forall|id: u64| #[trigger]
                        o.eligible@.contains(id) ==> has_bid(bids@, id))
                    &&& (forall|id: u64| #[trigger]
                        has_valid_bid(bids@, id) ==> o.eligible@.contains(id))
                    &&& (max_rounds > 0 ==> {
                        &&& o.round_bids@ == round_bids_of(bids@, o.eligible@)
                        &&& o.winning_bids@ == greedy_winners(
                            valid_bids_for(o.round_bids@, *basket),
                            *basket,
                            supplies_of(*basket),
                            Seq::empty(),
                        )
                        &&& o.converged == no_excess(o.round_bids@, *basket, o.final_prices@)
                    })
                    &&& (max_rounds == 0 ==> o.winning_bids@.len() == 0 && o.rounds_used == 0)
                    &&& o.allocation.wf()
                    &&& allocation_at_prices(
                        o.winning_bids@,
                        *basket,
                        o.final_prices@,
                        o.allocation@,
                    )
                    &&& o.settled.wf()
                    &&& settle_res(o.winning_bids@) == Ok::<Map<u64, User>, u64>(o.settled@)
                },
                Err(e) => exists|elig: Seq<u64>|
                    #![trigger round_bids_of(bids@, elig)]
                    {
                        let w = greedy_winners(
                            valid_bids_for(round_bids_of(bids@, elig), *basket),
                            *basket,
                            supplies_of(*basket),
                            Seq::empty(),
                        );
                        &&& settle_res(w) is Err
                        &&& e == ClearingError::InsufficientFunds(settle_res(w)->Err_0)
                    },
            },
    {
        let ghost start_prices = initial_prices@;
        let mut prices = initial_prices;
        let mut eligible = bidder_ids_of(bids);
        proof {
            assert forall|id: u64| #[trigger] has_valid_bid(bids@, id) implies eligible@.contains(
                id,
            ) by {
                let i = choose|i: int|
                    0 <= i < bids@.len() && (#[trigger] bids@[i]).user.id == id && spec_bid_valid(
                        bids@[i],
                    );
                assert(has_bid(bids@, id));
            }
        }
        let ghost init_elig = eligible@;
        let mut round: usize = 0;
        while round < max_rounds
            invariant
                0 <= round <= max_rounds,
                max_rounds == 0 || round < max_rounds,
                start_prices == initial_prices@,
                init_elig == distinct_ids(bids@),
                ({
                    let full = cca_run(
                        bids@,
                        *basket,
                        start_prices,
                        init_elig,
                        price_increment,
                        max_rounds as nat,
                    );
                    let sub = cca_run(
                        bids@,
                        *basket,
                        prices@,
                        eligible@,
                        price_increment,
                        (max_rounds - round) as nat,
                    );
                    full == (sub.0, sub.1, (sub.2 + round) as nat, sub.3)
                }),
                prices@.len() == basket.assets@.len(),
                prices@.len() == start_prices.len(),
                price_increment <= MAX_RATE,
                forall|k: int| 0 <= k < prices@.len() ==> #[trigger] prices@[k] >= 1,
                forall|k: int|
                    0 <= k < prices@.len() ==> #[trigger] prices@[k] >= start_prices[k],
                forall|id: u64| #[trigger] eligible@.contains(id) ==> has_bid(bids@, id),
                forall|id: u64| #[trigger] has_valid_bid(bids@, id) ==> eligible@.contains(id),
            decreases max_rounds - round,
        {
            let evaluation = Self::evaluate_bids_in_round(bids, basket, &prices, &eligible);
            let excess_clear = all_zero(&evaluation.excess);
            let done = excess_clear || round + 1 == max_rounds;
            if done {
                proof {
                    let budget = (max_rounds - round) as nat;
                    assert(budget >= 1);
                    if excess_clear {
                        assert forall|k: int| 0 <= k < basket.assets@.len() implies excess_for(
                            evaluation.valid_bids@,
                            prices@[k],
                            (#[trigger] basket.assets@[k]).quantity,
                        ) == 0 by {
                            assert(evaluation.excess@[k] == 0);
                        }
                        assert(no_excess(evaluation.valid_bids@, *basket, prices@));
                        assert(cca_run(
                            bids@,
                            *basket,
                            prices@,
                            eligible@,
                            price_increment,
                            budget,
                        ) == (prices@, eligible@, 1nat, true));
                    } else {
                        let k = choose|k: int|
                            0 <= k < evaluation.excess@.len() && evaluation.excess@[k] != 0;
                        assert(excess_for(
                            evaluation.valid_bids@,
                            prices@[k],
                            basket.assets@[k].quantity,
                        ) != 0);
                        assert(!no_excess(evaluation.valid_bids@, *basket, prices@));
                        assert(budget == 1);
                        assert(cca_run(
                            bids@,
                            *basket,
                            prices@,
                            eligible@,
                            price_increment,
                            budget,
                        ) == (prices@, eligible@, 1nat, false));
                    }
                }
                let (winning_bids, _welfare) = WDPSolver::maximize_welfare_cca(
                    &evaluation.valid_bids,
                    basket,
                );
                proof {
                    crate::helpers::lemma_valid_bids_bounds(evaluation.valid_bids@, *basket);
                    lemma_greedy_winners_from(
                        valid_bids_for(evaluation.valid_bids@, *basket),
                        *basket,
                        supplies_of(*basket),
                        Seq::empty(),
                    );
                    assert forall|i: int| 0 <= i < winning_bids@.len() implies frac_of(
                        #[trigger] winning_bids@[i],
                    ) <= FRACTION_SCALE by {
                        let v = valid_bids_for(evaluation.valid_bids@, *basket);
                        assert(v.contains(winning_bids@[i]));
                        let j = choose|j: int| 0 <= j < v.len() && v[j] == winning_bids@[i];
                    }
                }
                let allocation = Self::allocate_assets(&winning_bids, basket, &prices);
                match Clearing::clear_winning_bids(&winning_bids, &allocation) {
                    Ok(settled) => {
                        let converged = excess_clear;
                        return Ok(
                            CcaOutcome {
                                round_bids: evaluation.valid_bids,
                                winning_bids,
                                allocation,
                                settled,
                                final_prices: prices,
                                eligible,
                                rounds_used: round + 1,
                                converged,
                            },
                        );
                    },
                    Err(e) => {
                        proof {
                            let ghost elig = eligible@;
                            assert(settle_res(
                                greedy_winners(
                                    valid_bids_for(round_bids_of(bids@, elig), *basket),
                                    *basket,
                                    supplies_of(*basket),
                                    Seq::empty(),
                                ),
                            ) is Err);
                        }
                        return Err(e);
                    },
                }
            }
            let ghost old_prices = prices@;
            let ghost old_eligible = eligible@;
            let ghost rb = evaluation.valid_bids@;
            let new_prices = Self::update_prices(&prices, &evaluation.excess, price_increment);
            proof {
                let k0 = choose|k: int|
                    0 <= k < evaluation.excess@.len() && evaluation.excess@[k] != 0;
                assert(excess_for(rb, old_prices[k0], basket.assets@[k0].quantity) != 0);
                assert(!no_excess(rb, *basket, old_prices));
                assert forall|k: int| 0 <= k < old_prices.len() implies #[trigger] new_prices@[k]
                    == next_prices_spec(old_prices, rb, *basket, price_increment)[k] by {
                    assert(evaluation.excess@[k] == excess_amount(
                        rb,
                        old_prices[k],
                        basket.assets@[k].quantity,
                    ));
                    lemma_next_price_monotone(
                        old_prices[k],
                        evaluation.excess@[k],
                        price_increment,
                    );
                }
                assert(new_prices@ =~= next_prices_spec(old_prices, rb, *basket, price_increment));
            }
            prices = new_prices;
            let new_eligible = Self::apply_activity_rule(&eligible, &evaluation.valid_bids);
            proof {
                assert forall|id: u64| #[trigger] new_eligible@.contains(id) implies has_bid(
                    bids@,
                    id,
                ) by {
                    assert(eligible@.contains(id));
                }
                assert forall|id: u64| #[trigger] has_valid_bid(bids@, id) implies
                    new_eligible@.contains(id) by {
                    lemma_valid_bidder_in_round(bids@, eligible@, id);
                }
            }
            eligible = new_eligible;
            proof {
                let budget = (max_rounds - round) as nat;
                assert(budget >= 2);
                let sub_old = cca_run(
                    bids@,
                    *basket,
                    old_prices,
                    old_eligible,
                    price_increment,
                    budget,
                );
                let sub_new = cca_run(
                    bids@,
                    *basket,
                    prices@,
                    eligible@,
                    price_increment,
                    (budget - 1) as nat,
                );
                assert(sub_old == (sub_new.0, sub_new.1, (sub_new.2 + 1) as nat, sub_new.3));
            }
            round = round + 1;
        }
        // a zero round budget: nothing ran, nothing to settle
        let winning_bids: Vec<Bid> = Vec::new();
        let allocation = Self::allocate_assets(&winning_bids, basket, &prices);
        let empty_ledger = Clearing::clear_winning_bids(&winning_bids, &allocation);
        match empty_ledger {
            Ok(settled) => Ok(
                CcaOutcome {
                    round_bids: Vec::new(),
                    winning_bids,
                    allocation,
                    settled,
                    final_prices: prices,
                    eligible,
                    rounds_used: 0,
                    converged: false,
                },
            ),
            Err(e) => {
                proof {
                    assert(false);
                }
                Err(e)
            },
        }
    }
}

/// True when every entry is zero.
fn all_zero(v: &Vec<u128>) -> (r: bool)
    ensures
        r == forall|k: int| 0 <= k < v@.len() ==> #[trigger] v@[k] == 0,
{
    let n = v.len();
    let mut k: usize = 0;
    while k < n
        invariant
            0 <= k <= n,
            n == v@.len(),
            forall|k0: int| 0 <= k0 < k ==> #[trigger] v@[k0] == 0,
        decreases n - k,
    {
        if v[k] != 0 {
            return false;
        }
        k = k + 1;
    }
    true
}

/// True when the vector holds the id.
fn contains_id(v: &Vec<u64>, id: u64) -> (r: bool)
    ensures
        r == v@.contains(id),
{
    let n = v.len();
    let mut i: usize = 0;
    while i < n
        invariant
            0 <= i <= n,
            n == v@.len(),
            forall|j: int| 0 <= j < i ==> v@[j] != id,
        decreases n - i,
    {
        if v[i] == id {
            return true;
        }
        i = i + 1;
    }
    false
}

/// True when the bidder placed one of the given bids.
fn bidder_has_bid(round_bids: &Vec<Bid>, id: u64) -> (r: bool)
    ensures
        r == has_bid(round_bids@, id),
{
    let n = round_bids.len();
    let mut i: usize = 0;
    while i < n
        invariant
            0 <= i <= n,
            n == round_bids@.len(),
            forall|j: int| 0 <= j < i ==> (#[trigger] round_bids@[j]).user.id != id,
        decreases n - i,
    {
        if round_bids[i].user.id == id {
            return true;
        }
        i = i + 1;
    }
    false
}

/// Every distinct bidder id appearing in the bids, in first-seen order.
fn bidder_ids_of(bids: &Vec<Bid>) -> (r: Vec<u64>)
    ensures
        r@ == distinct_ids(bids@),
        forall|id: u64| #[trigger] r@.contains(id) <==> has_bid(bids@, id),
{
    let n = bids.len();
    let mut out: Vec<u64> = Vec::new();
    let mut i: usize = 0;
    while i < n
        invariant
            0 <= i <= n,
            n == bids@.len(),
            out@ == distinct_ids(bids@.subrange(0, i as int)),
            forall|id: u64| #[trigger]
                out@.contains(id) <==> has_bid(bids@.subrange(0, i as int), id),
        decreases n - i,
    {
        let ghost old_out = out@;
        let ghost prefix = bids@.subrange(0, i as int);
        let ghost prefix1 = bids@.subrange(0, i + 1);
        if !contains_id(&out, bids[i].user.id) {
            out.push(bids[i].user.id);
        }
        proof {
            assert(prefix1.drop_last() =~= prefix);
            assert(prefix1.last() == bids@[i as int]);
            assert forall|id: u64| #[trigger] out@.contains(id) implies has_bid(prefix1, id) by {
                let w = choose|w: int| 0 <= w < out@.len() && out@[w] == id;
                if w < old_out.len() {
                    assert(old_out[w] == id);
                    assert(old_out.contains(id));
                    let v = choose|v: int| 0 <= v < prefix.len() && (#[trigger] prefix[v]).user.id
                        == id;
                    assert(prefix1[v].user.id == id);
                } else {
                    assert(id == bids@[i as int].user.id);
                    assert(prefix1[i as int].user.id == id);
                }
            }
            assert forall|id: u64| has_bid(prefix1, id) implies #[trigger] out@.contains(id) by {
                let v = choose|v: int| 0 <= v < prefix1.len() && (#[trigger] prefix1[v]).user.id
                    == id;
                if v < i {
                    assert(prefix[v].user.id == id);
                    assert(has_bid(prefix, id));
                    assert(old_out.contains(id));
                    let w = choose|w: int| 0 <= w < old_out.len() && old_out[w] == id;
                    assert(out@[w] == id);
                } else {
                    assert(id == bids@[i as int].user.id);
                    if old_out.contains(id) {
                        let w = choose|w: int| 0 <= w < old_out.len() && old_out[w] == id;
                        assert(out@[w] == id);
                    } else {
                        assert(out@[out@.len() - 1] == id);
                    }
                }
            }
        }
        i = i + 1;
    }
    proof {
        assert(bids@.subrange(0, n as int) =~= bids@);
    }
    out
}

/// Computes the bundle for one bid at the side price table.
fn bundle_of_bid_at(b: &Bid, basket: &Basket, prices: &Vec<u64>) -> (r: Vec<AssetInfo>)
    requires
        frac_of(*b) <= FRACTION_SCALE,
        prices@.len() == basket.assets@.len(),
    ensures
        r@ == bundle_at_prices(*b, *basket, prices@),
{
    let proportion: u64 = match b.quantity {
        Some(q) => q,
        None => FRACTION_SCALE,
    };
    let n = basket.assets.len();
    let mut out: Vec<AssetInfo> = Vec::new();
    let mut i: usize = 0;
    while i < n
        invariant
            0 <= i <= n,
            n == basket.assets@.len(),
            prices@.len() == n,
            proportion as int == frac_of(*b),
            proportion <= FRACTION_SCALE,
            out@.len() == i,
            forall|j: int| 0 <= j < i ==> out@[j] == bundle_at_prices(*b, *basket, prices@)[j],
        decreases n - i,
    {
        let a = &basket.assets[i];
        proof {
            crate::helpers::lemma_demand_bound(proportion as int, a.quantity as int);
        }
        let q: u64 = ((proportion as u128) * (a.quantity as u128) / (FRACTION_SCALE as u128)) as u64;
        out.push(AssetInfo { asset: clone_asset(&a.asset), quantity: q, price: prices[i] });
        i = i + 1;
    }
    proof {
        assert(out@ =~= bundle_at_prices(*b, *basket, prices@));
    }
    out
}

} // verus!
