//! The Vickrey-Clarke-Groves auction: welfare-maximizing selection,
//! per-winner externality payments, proportional allocation, and
//! settlement.
//!
//! The welfare oracle here is the naive one: it accepts every valid bid
//! and ignores basket capacity. A winner pays the externality their
//! presence imposes on the others, floored at zero.

use vstd::prelude::*;
use crate::model::{User, Bid, Basket, AssetInfo, FRACTION_SCALE, frac_of, clone_bid};
use crate::helpers::{valid_bids_for, lemma_valid_bids_bounds, allocate_basket, bundle_for};
use crate::wdp::{WDPSolver, sum_prices};
use crate::clearing::{Clearing, ClearingError, settle_res};
use crate::assoc::AssocMap;

verus! {

/// The bids that remain when one bidder withdraws entirely.
pub open spec fn bids_without(bids: Seq<Bid>, uid: u64) -> Seq<Bid>
    decreases bids.len(),
{
    if bids.len() == 0 {
        Seq::empty()
    } else {
        let rest = bids_without(bids.drop_last(), uid);
        if bids.last().user.id == uid {
            rest
        } else {
            rest.push(bids.last())
        }
    }
}

/// Total welfare of the valid bids that remain when one bidder
/// withdraws.
#[verifier::opaque]
pub open spec fn welfare_without(bids: Seq<Bid>, basket: Basket, uid: u64) -> int {
    sum_prices(valid_bids_for(bids_without(bids, uid), basket))
}

/// The VCG payment of a winning bid: what the others' welfare would
/// have been without this bidder, less what the others actually get,
/// floored at zero.
#[verifier::opaque]
pub open spec fn vcg_payment(bids: Seq<Bid>, basket: Basket, total: int, w: Bid) -> int {
    let externality = welfare_without(bids, basket, w.user.id) - (total - w.price);
    if externality > 0 {
        externality
    } else {
        0
    }
}

/// Every VCG payment is nonnegative and never exceeds the welfare the
/// other bidders could reach without the winner: a winner is charged at
/// most the externality base, and never subsidised.
pub proof fn lemma_vcg_payment_bounds(bids: Seq<Bid>, basket: Basket, total: int, w: Bid)
    requires
        w.price <= total,
    ensures
        0 <= vcg_payment(bids, basket, total, w),
        vcg_payment(bids, basket, total, w) <= welfare_without(bids, basket, w.user.id),
{
    reveal(vcg_payment);
    reveal(welfare_without);
    lemma_sum_prices_nonneg(valid_bids_for(bids_without(bids, w.user.id), basket));
}

/// Each bid's price is bounded by the sum over the sequence.
proof fn lemma_price_le_sum(s: Seq<Bid>, i: int)
    requires
        0 <= i < s.len(),
    ensures
        s[i].price <= sum_prices(s),
    decreases s.len(),
{
    lemma_sum_prices_nonneg(s);
    if i == s.len() - 1 {
        lemma_sum_prices_nonneg(s.drop_last());
    } else {
        lemma_price_le_sum(s.drop_last(), i);
    }
}

/// Price sums are nonnegative.
proof fn lemma_sum_prices_nonneg(s: Seq<Bid>)
    ensures
        sum_prices(s) >= 0,
    decreases s.len(),
{
    if s.len() > 0 {
        lemma_sum_prices_nonneg(s.drop_last());
    }
}

/// Fewer bids than the list it was filtered from.
proof fn lemma_seq_len_bounds(bids: Seq<Bid>, basket: Basket, uid: u64)
    ensures
        bids_without(bids, uid).len() <= bids.len(),
        valid_bids_for(bids_without(bids, uid), basket).len() <= bids_without(bids, uid).len(),
    decreases bids.len(),
{
    lemma_valid_len(bids_without(bids, uid), basket);
    if bids.len() > 0 {
        lemma_seq_len_bounds(bids.drop_last(), basket, uid);
    }
}

/// A validated list is no longer than its input.
proof fn lemma_valid_len(bids: Seq<Bid>, basket: Basket)
    ensures
        valid_bids_for(bids, basket).len() <= bids.len(),
    decreases bids.len(),
{
    if bids.len() > 0 {
        lemma_valid_len(bids.drop_last(), basket);
    }
}

/// Keeps the bids whose bidder is not the given one.
fn filter_out_user(bids: &Vec<Bid>, uid: u64) -> (r: Vec<Bid>)
    ensures
        r@ == bids_without(bids@, uid),
{
    let n = bids.len();
    let mut out: Vec<Bid> = Vec::new();
    let mut i: usize = 0;
    while i < n
        invariant
            0 <= i <= n,
            n == bids@.len(),
            out@ == bids_without(bids@.subrange(0, i as int), uid),
        decreases n - i,
    {
        proof {
            assert(bids@.subrange(0, i + 1).drop_last() =~= bids@.subrange(0, i as int));
            assert(bids@.subrange(0, i + 1).last() == bids@[i as int]);
        }
        if bids[i].user.id != uid {
            out.push(clone_bid(&bids[i]));
        }
        i = i + 1;
    }
    proof {
        assert(bids@.subrange(0, n as int) =~= bids@);
    }
    out
}

/// The payments table is keyed by exactly the winning bidders, and each
/// bidder's entry is the VCG payment of their last winning bid.
#[verifier::opaque]
pub open spec fn payments_match(
    bids: Seq<Bid>,
    basket: Basket,
    total: int,
    winners: Seq<Bid>,
    p: Map<u64, u128>,
) -> bool {
    &&& (forall|uid: u64|
        p.contains_key(uid) <==> exists|i: int|
            0 <= i < winners.len() && (#[trigger] winners[i]).user.id == uid)
    &&& (forall|i: int|
        0 <= i < winners.len() && (forall|j: int|
            i < j < winners.len() ==> (#[trigger] winners[j]).user.id != winners[i].user.id)
            ==> p[(#[trigger] winners[i]).user.id] == vcg_payment(bids, basket, total, winners[i]))
}

/// Everything a VCG run reports: the winning bids, the allocation
/// intents, the per-bidder payments, and the settled balances.
pub struct VcgOutcome {
    pub winning_bids: Vec<Bid>,
    pub allocation: AssocMap<Vec<AssetInfo>>,
    pub payments: AssocMap<u128>,
    pub settled: AssocMap<User>,
    pub total_welfare: u128,
}

/// The Vickrey-Clarke-Groves auction orchestrator.
pub struct VCGAuction;

impl VCGAuction {
    /// For each winning bid, the welfare the others would reach if this
    /// bidder withdrew, minus what the others actually get; floored at
    /// zero. Keyed by bidder id; a bidder's later winning bid replaces
    /// the earlier entry.
    pub fn compute_payments(
        bids: &Vec<Bid>,
        basket: &Basket,
        winning_bids: &Vec<Bid>,
        total_welfare: u128,
    ) -> (r: AssocMap<u128>)
        requires
            forall|i: int|
                0 <= i < winning_bids@.len() ==> (#[trigger] winning_bids@[i]).price
                    <= total_welfare,
        ensures
            r.wf(),
            payments_match(bids@, *basket, total_welfare as int, winning_bids@, r@),
    {
        let n = winning_bids.len();
        let mut out: AssocMap<u128> = AssocMap::new();
        let mut i: usize = 0;
        while i < n
            invariant
                0 <= i <= n,
                n == winning_bids@.len(),
                out.wf(),
                forall|i0: int|
                    0 <= i0 < n ==> (#[trigger] winning_bids@[i0]).price <= total_welfare,
                forall|uid: u64|
                    out@.contains_key(uid) <==> exists|j: int|
                        0 <= j < i && (#[trigger] winning_bids@[j]).user.id == uid,
                forall|j: int|
                    0 <= j < i && (forall|k: int|
                        j < k < i ==> (#[trigger] winning_bids@[k]).user.id
                            != winning_bids@[j].user.id) ==> out@[(
                    #[trigger] winning_bids@[j]).user.id] == vcg_payment(
                        bids@,
                        *basket,
                        total_welfare as int,
                        winning_bids@[j],
                    ),
            decreases n - i,
        {
            let w = &winning_bids[i];
            let remaining = filter_out_user(bids, w.user.id);
            let (_, wwo) = WDPSolver::maximize_welfare_vcg(&remaining, basket);
            proof {
                lemma_seq_len_bounds(bids@, *basket, w.user.id);
                crate::wdp::lemma_sum_prices_len_bound(
                    valid_bids_for(bids_without(bids@, w.user.id), *basket),
                );
            }
            let others_get: u128 = total_welfare - w.price as u128;
            let payment: u128 = if wwo > others_get {
                wwo - others_get
            } else {
                0
            };
            proof {
                reveal(vcg_payment);
                reveal(welfare_without);
                assert(payment as int == vcg_payment(
                    bids@,
                    *basket,
                    total_welfare as int,
                    winning_bids@[i as int],
                ));
            }
            out.upsert(w.user.id, payment);
            i = i + 1;
        }
        proof {
            reveal(payments_match);
        }
        out
    }

    /// Proportional allocation of the basket to the winning bids.
    pub fn allocate_assets(winning_bids: &Vec<Bid>, basket: &Basket) -> (r: AssocMap<
        Vec<AssetInfo>,
    >)
        requires
            forall|i: int|
                0 <= i < winning_bids@.len() ==> frac_of(#[trigger] winning_bids@[i])
                    <= FRACTION_SCALE,
        ensures
            r.wf(),
            forall|uid: u64|
                r@.contains_key(uid) <==> exists|i: int|
                    0 <= i < winning_bids@.len() && (#[trigger] winning_bids@[i]).user.id == uid,
            forall|i: int|
                0 <= i < winning_bids@.len() && (forall|j: int|
                    i < j < winning_bids@.len() ==> (#[trigger] winning_bids@[j]).user.id
                        != winning_bids@[i].user.id) ==> r@[(
                #[trigger] winning_bids@[i]).user.id]@ == bundle_for(winning_bids@[i], *basket),
    {
        allocate_basket(winning_bids, basket)
    }

    /// Runs the full VCG pipeline: every valid bid wins, each winner is
    /// charged their externality, the basket is allocated
    /// proportionally, and the winning bids are settled. A bidder who
    /// cannot cover their winning bids aborts the auction with a typed
    /// error and no balance changes anywhere.
    pub fn run_auction(bids: &Vec<Bid>, basket: &Basket) -> (r: Result<VcgOutcome, ClearingError>)
        ensures
            match r {
                Ok(o) => {
                    &&& o.winning_bids@ == valid_bids_for(bids@, *basket)
                    &&& o.total_welfare == sum_prices(valid_bids_for(bids@, *basket))
                    &&& o.allocation.wf()
                    &&& o.payments.wf()
                    &&& o.settled.wf()
                    &&& settle_res(o.winning_bids@) == Ok::<Map<u64, User>, u64>(o.settled@)
                    &&& payments_match(
                        bids@,
                        *basket,
                        o.total_welfare as int,
                        o.winning_bids@,
                        o.payments@,
                    )
                    &&& (forall|uid: u64|
                        o.allocation@.contains_key(uid) <==> exists|i: int|
                            0 <= i < o.winning_bids@.len() && (#[trigger] o.winning_bids@[i]).user.id
                                == uid)
                    &&& (forall|i: int|
                        0 <= i < o.winning_bids@.len() && (forall|j: int|
                            i < j < o.winning_bids@.len() ==> (#[trigger] o.winning_bids@[j]).user.id
                                != o.winning_bids@[i].user.id) ==> o.allocation@[(
                        #[trigger] o.winning_bids@[i]).user.id]@ == bundle_for(
                            o.winning_bids@[i],
                            *basket,
                        ))
                },
                Err(e) => {
                    &&& settle_res(valid_bids_for(bids@, *basket)) is Err
                    &&& e == ClearingError::InsufficientFunds(
                        settle_res(valid_bids_for(bids@, *basket))->Err_0,
                    )
                },
            },
    {
        let (winning_bids, total_welfare) = WDPSolver::maximize_welfare_vcg(bids, basket);
        proof {
            lemma_valid_bids_bounds(bids@, *basket);
            assert forall|i: int| 0 <= i < winning_bids@.len() implies (
            #[trigger] winning_bids@[i]).price <= total_welfare by {
                lemma_price_le_sum(winning_bids@, i);
            }
        }
        let payments = Self::compute_payments(bids, basket, &winning_bids, total_welfare);
        let allocation = Self::allocate_assets(&winning_bids, basket);
        match Clearing::clear_winning_bids(&winning_bids, &allocation) {
            Ok(settled) => Ok(
                VcgOutcome { winning_bids, allocation, payments, settled, total_welfare },
            ),
            Err(e) => Err(e),
        }
    }
}

} // verus!
