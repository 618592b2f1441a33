//! Single-shot auctions over one basket: XOR (one exclusive winner)
//! and OR (every valid bid accepted).

use vstd::prelude::*;
use crate::model::{Bid, Basket, AssetInfo};
use crate::helpers::{
    evaluate_partial_xor_bids, valid_bids_for, bundle_for,
};
use crate::wdp::WDPSolver;
use crate::assoc::AssocMap;

verus! {

/// All-or-nothing exclusive bidding: at most one bid wins.
pub struct XorAuction;

impl XorAuction {
    /// The highest valid bid, if any.
    pub fn evaluate_bids(bids: &Vec<Bid>, basket: &Basket) -> (r: Option<Bid>)
        ensures
            match r {
                Some(b) => valid_bids_for(bids@, *basket).contains(b) && forall|i: int|
                    0 <= i < valid_bids_for(bids@, *basket).len() ==> (#[trigger] valid_bids_for(
                        bids@,
                        *basket,
                    )[i]).price <= b.price,
                None => valid_bids_for(bids@, *basket).len() == 0,
            },
    {
        WDPSolver::solve_xor(bids, basket)
    }

    /// The highest valid bid together with its fraction of the basket.
    pub fn evaluate_partial_bids(bids: &Vec<Bid>, basket: &Basket) -> (r: Option<
        (Bid, AssocMap<Vec<AssetInfo>>),
    >)
        ensures
            match r {
                Some(p) => {
                    &&& valid_bids_for(bids@, *basket).contains(p.0)
                    &&& (forall|i: int|
                        0 <= i < valid_bids_for(bids@, *basket).len() ==> (
                        #[trigger] valid_bids_for(bids@, *basket)[i]).price <= p.0.price)
                    &&& p.1.wf()
                    &&& p.1@.contains_key(p.0.user.id)
                    &&& p.1@[p.0.user.id]@ == bundle_for(p.0, *basket)
                },
                None => valid_bids_for(bids@, *basket).len() == 0,
            },
    {
        evaluate_partial_xor_bids(bids, basket)
    }
}

/// Independently acceptable bidding: every valid bid wins its share.
pub struct OrAuction;

impl OrAuction {
    /// Every valid bid, each with its proportional allocation.
    pub fn evaluate_bids(bids: &Vec<Bid>, basket: &Basket) -> (r: (
        Vec<Bid>,
        AssocMap<Vec<AssetInfo>>,
    ))
        ensures
            r.0@ == valid_bids_for(bids@, *basket),
            r.1.wf(),
            forall|uid: u64|
                r.1@.contains_key(uid) <==> exists|i: int|
                    0 <= i < r.0@.len() && (#[trigger] r.0@[i]).user.id == uid,
            forall|i: int|
                0 <= i < r.0@.len() && (forall|j: int|
                    i < j < r.0@.len() ==> (#[trigger] r.0@[j]).user.id != r.0@[i].user.id)
                    ==> r.1@[(#[trigger] r.0@[i]).user.id]@ == bundle_for(r.0@[i], *basket),
    {
        WDPSolver::solve_or(bids, basket)
    }

    /// Same as [`Self::evaluate_bids`]: partial OR bids are the
    /// ordinary case, each bid naming its own fraction.
    pub fn evaluate_partial_bids(bids: &Vec<Bid>, basket: &Basket) -> (r: (
        Vec<Bid>,
        AssocMap<Vec<AssetInfo>>,
    ))
        ensures
            r.0@ == valid_bids_for(bids@, *basket),
            r.1.wf(),
            forall|uid: u64|
                r.1@.contains_key(uid) <==> exists|i: int|
                    0 <= i < r.0@.len() && (#[trigger] r.0@[i]).user.id == uid,
            forall|i: int|
                0 <= i < r.0@.len() && (forall|j: int|
                    i < j < r.0@.len() ==> (#[trigger] r.0@[j]).user.id != r.0@[i].user.id)
                    ==> r.1@[(#[trigger] r.0@[i]).user.id]@ == bundle_for(r.0@[i], *basket),
    {
        WDPSolver::solve_or(bids, basket)
    }
}

} // verus!
