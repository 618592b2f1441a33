//! End-to-end scenarios over the sample basket of 2 BTC at 30000 and
//! 5 ETH at 2000.

use auction::assoc::AssocMap;
use auction::cca_auction::CombiClockAuction;
use auction::clearing::{Clearing, ClearingError};
use auction::model::{Asset, AssetInfo, Basket, Bid, BidType, User, FRACTION_SCALE};
use auction::wdp::WDPSolver;

fn sample_basket() -> Basket {
    Basket {
        id: 1,
        assets: vec![
            AssetInfo::new(Asset::new("BTC", "USD"), 2 * FRACTION_SCALE, 30000),
            AssetInfo::new(Asset::new("ETH", "USD"), 5 * FRACTION_SCALE, 2000),
        ],
    }
}

#[test]
fn scenario_clock_auction_two_winners() {
    // three bidders asking for half, three quarters, and half of the
    // basket: demand never exceeds supply, the auction converges at the
    // opening prices, and the greedy solve seats exactly two winners
    let u1 = User::new(1, "Alice", 1_000_000);
    let u2 = User::new(2, "Bob", 1_000_000);
    let u3 = User::new(3, "Charlie", 1_000_000);
    let basket = sample_basket();

    let bids = vec![
        Bid::new(u1, 1, BidType::XOR, 60000, Some(500_000)),
        Bid::new(u2, 1, BidType::XOR, 70000, Some(750_000)),
        Bid::new(u3, 1, BidType::XOR, 80000, Some(500_000)),
    ];
    let outcome =
        CombiClockAuction::run_auction(&bids, &basket, vec![30000, 2000], 100_000, 10).unwrap();

    assert!(outcome.converged);
    assert_eq!(outcome.winning_bids.len(), 2);
    assert_eq!(outcome.winning_bids[0].user.id, 1);
    assert_eq!(outcome.winning_bids[1].user.id, 3);
    assert!(outcome.rounds_used <= 10);
}

#[test]
fn scenario_single_winner_highest_price() {
    // the single-winner solver over three valid bids returns the
    // highest-priced one
    let u1 = User::new(1, "Alice", 1_000_000);
    let u2 = User::new(2, "Bob", 1_000_000);
    let u3 = User::new(3, "Charlie", 1_000_000);
    let basket = sample_basket();

    let bids = vec![
        Bid::new(u1, 1, BidType::XOR, 60000, Some(500_000)),
        Bid::new(u2, 1, BidType::XOR, 70000, Some(750_000)),
        Bid::new(u3, 1, BidType::XOR, 80000, Some(FRACTION_SCALE)),
    ];
    let winner = WDPSolver::solve_xor(&bids, &basket).unwrap();
    assert_eq!(winner.price, 80000);
}

#[test]
fn scenario_greedy_capacity() {
    // bids demanding 1, 1.5 and 2 BTC-equivalent units of the 2-BTC
    // supply, in that order: the first uses 1 BTC, after which each
    // later bid is rejected for exceeding the remaining capacity
    let u1 = User::new(1, "Alice", 1_000_000);
    let u2 = User::new(2, "Bob", 1_000_000);
    let u3 = User::new(3, "Charlie", 1_000_000);
    let basket = sample_basket();

    let bids = vec![
        Bid::new(u1, 1, BidType::XOR, 60000, Some(500_000)),
        Bid::new(u2, 1, BidType::XOR, 70000, Some(750_000)),
        Bid::new(u3, 1, BidType::XOR, 80000, Some(FRACTION_SCALE)),
    ];
    let (winners, total) = WDPSolver::maximize_welfare_cca(&bids, &basket);
    assert_eq!(winners.len(), 1);
    assert_eq!(winners[0].user.id, 1);
    assert_eq!(total, 60000);
}

#[test]
fn scenario_clearing_two_bids() {
    // Alice pays 60000 of her million, Bob 70000 of his two million
    let alice = User::new(1, "Alice", 1_000_000);
    let bob = User::new(2, "Bob", 2_000_000);

    let bids = vec![
        Bid::new(alice, 1, BidType::XOR, 60000, Some(FRACTION_SCALE)),
        Bid::new(bob, 1, BidType::XOR, 70000, Some(FRACTION_SCALE)),
    ];
    let allocation: AssocMap<Vec<AssetInfo>> = AssocMap::new();
    let ledger = Clearing::clear_winning_bids(&bids, &allocation).unwrap();

    assert_eq!(ledger.get(1).unwrap().balance, 940_000);
    assert_eq!(ledger.get(2).unwrap().balance, 1_930_000);
}

#[test]
fn scenario_clearing_insufficient_funds() {
    // a bid priced above its bidder's balance refuses the whole batch:
    // the engine hands back no ledger at all, so no balance anywhere
    // has changed
    let alice = User::new(1, "Alice", 50_000);
    let bob = User::new(2, "Bob", 2_000_000);

    let bids = vec![
        Bid::new(bob.clone(), 1, BidType::XOR, 70000, Some(FRACTION_SCALE)),
        Bid::new(alice.clone(), 1, BidType::XOR, 60000, Some(FRACTION_SCALE)),
    ];
    let allocation: AssocMap<Vec<AssetInfo>> = AssocMap::new();
    let result = Clearing::clear_winning_bids(&bids, &allocation);

    assert_eq!(result.unwrap_err(), ClearingError::InsufficientFunds(1));
    // the inputs still carry their original balances
    assert_eq!(alice.balance, 50_000);
    assert_eq!(bob.balance, 2_000_000);
}

#[test]
fn scenario_same_bidder_pays_each_winning_bid() {
    // a bidder with two winning bids pays both, tracked cumulatively
    let alice = User::new(1, "Alice", 100_000);
    let bids = vec![
        Bid::new(alice.clone(), 1, BidType::OR, 60_000, Some(500_000)),
        Bid::new(alice.clone(), 1, BidType::OR, 30_000, Some(250_000)),
    ];
    let allocation: AssocMap<Vec<AssetInfo>> = AssocMap::new();
    let ledger = Clearing::clear_winning_bids(&bids, &allocation).unwrap();
    assert_eq!(ledger.get(1).unwrap().balance, 10_000);

    // one more bid would cross the tracked balance mid-batch
    let bids_over = vec![
        Bid::new(alice.clone(), 1, BidType::OR, 60_000, Some(500_000)),
        Bid::new(alice.clone(), 1, BidType::OR, 30_000, Some(250_000)),
        Bid::new(alice.clone(), 1, BidType::OR, 20_000, Some(250_000)),
    ];
    let refused = Clearing::clear_winning_bids(&bids_over, &allocation);
    assert_eq!(refused.unwrap_err(), ClearingError::InsufficientFunds(1));
}
