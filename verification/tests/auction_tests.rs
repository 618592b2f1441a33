//! Tests of the single-shot auctions, the VCG orchestrator, the clock
//! auction and settlement.

use auction::assoc::AssocMap;
use auction::cca_auction::CombiClockAuction;
use auction::clearing::{Clearing, ClearingError};
use auction::model::{Asset, AssetInfo, Basket, Bid, BidType, User, FRACTION_SCALE};
use auction::simple_auction::{OrAuction, XorAuction};
use auction::vcg_auction::VCGAuction;

fn two_asset_basket() -> Basket {
    Basket {
        id: 1,
        assets: vec![
            AssetInfo::new(Asset::new("BTC", "USD"), 2 * FRACTION_SCALE, 30000),
            AssetInfo::new(Asset::new("ETH", "USD"), 5 * FRACTION_SCALE, 2000),
        ],
    }
}

#[test]
fn test_xor_auction() {
    let user1 = User::new(1, "Alice", 1_000_000);
    let user2 = User::new(2, "Bob", 2_000_000);
    let basket = two_asset_basket();

    let bid1 = Bid::new(user1.clone(), 1, BidType::XOR, 60000, Some(FRACTION_SCALE));
    let bid2 = Bid::new(user2.clone(), 1, BidType::XOR, 70000, Some(FRACTION_SCALE));

    let bids = vec![bid1, bid2];
    let highest_bid = XorAuction::evaluate_bids(&bids, &basket).unwrap();
    assert_eq!(highest_bid.user.id, 2);
}

#[test]
fn test_or_auction() {
    let user1 = User::new(1, "Alice", 1_000_000);
    let user2 = User::new(2, "Bob", 2_000_000);
    let basket = two_asset_basket();

    let bid1 = Bid::new(user1.clone(), 1, BidType::OR, 60000, Some(500_000));
    let bid2 = Bid::new(user2.clone(), 1, BidType::OR, 70000, Some(500_000));

    let bids = vec![bid1, bid2];
    let (valid_bids, allocation) = OrAuction::evaluate_partial_bids(&bids, &basket);

    assert_eq!(valid_bids.len(), 2);
    assert!(allocation.contains_key(1));
    assert!(allocation.contains_key(2));
}

#[test]
fn test_vcg_auction() {
    let user1 = User::new(1, "Alice", 100_000);
    let user2 = User::new(2, "Bob", 200_000);
    let user3 = User::new(3, "Charlie", 300_000);
    let basket = two_asset_basket();

    let bid1 = Bid::new(user1.clone(), 1, BidType::XOR, 60000, Some(FRACTION_SCALE));
    let bid2 = Bid::new(user2.clone(), 1, BidType::XOR, 70000, Some(FRACTION_SCALE));
    let bid3 = Bid::new(user3.clone(), 1, BidType::XOR, 80000, Some(FRACTION_SCALE));

    let bids = vec![bid1, bid2, bid3];
    let outcome = VCGAuction::run_auction(&bids, &basket).unwrap();

    assert_eq!(outcome.winning_bids.len(), 3);
    assert_eq!(outcome.total_welfare, 210000);

    // with the additive welfare oracle no winner imposes an
    // externality, so every payment is zero, and none is negative
    assert_eq!(outcome.payments.get(1), Some(&0));
    assert_eq!(outcome.payments.get(2), Some(&0));
    assert_eq!(outcome.payments.get(3), Some(&0));

    // each winner's bid price was withdrawn during settlement
    assert_eq!(outcome.settled.get(1).unwrap().balance, 40_000);
    assert_eq!(outcome.settled.get(2).unwrap().balance, 130_000);
    assert_eq!(outcome.settled.get(3).unwrap().balance, 220_000);
}

#[test]
fn test_vcg_payments_floor_at_zero() {
    // under the additive welfare oracle a winner never displaces the
    // others, so the externality is never positive and every payment
    // floors at zero; no bidder is ever subsidised either
    let user1 = User::new(1, "Alice", 100_000);
    let user2 = User::new(2, "Bob", 200_000);
    let basket = two_asset_basket();

    let bids = vec![
        Bid::new(user1.clone(), 1, BidType::OR, 50_000, Some(500_000)),
        Bid::new(user2.clone(), 1, BidType::OR, 30_000, Some(250_000)),
        Bid::new(user2.clone(), 1, BidType::OR, 20_000, Some(250_000)),
    ];
    let outcome = VCGAuction::run_auction(&bids, &basket).unwrap();
    assert_eq!(outcome.total_welfare, 100_000);
    assert_eq!(outcome.payments.get(1), Some(&0));
    assert_eq!(outcome.payments.get(2), Some(&0));
}

#[test]
fn test_clear_winning_bids() {
    let user1 = User::new(1, "Alice", 100_000);
    let user2 = User::new(2, "Bob", 200_000);

    let bid1 = Bid::new(user1.clone(), 1, BidType::XOR, 60000, Some(FRACTION_SCALE));
    let bid2 = Bid::new(user2.clone(), 1, BidType::XOR, 70000, Some(FRACTION_SCALE));

    let mut allocation: AssocMap<Vec<AssetInfo>> = AssocMap::new();
    allocation.upsert(1, vec![AssetInfo::new(Asset::new("BTC", "USD"), FRACTION_SCALE, 30000)]);
    allocation.upsert(2, vec![AssetInfo::new(Asset::new("BTC", "USD"), FRACTION_SCALE, 30000)]);

    let bids = vec![bid1, bid2];
    let cleared_users = Clearing::clear_winning_bids(&bids, &allocation).unwrap();

    assert_eq!(cleared_users.get(1).unwrap().balance, 40000);
    assert_eq!(cleared_users.get(2).unwrap().balance, 130000);
}

#[test]
fn test_cannot_afford_bid() {
    let user1 = User::new(1, "Alice", 50_000);
    let user2 = User::new(2, "Bob", 200_000);

    // Alice cannot cover her own bid
    let bid1 = Bid::new(user1.clone(), 1, BidType::XOR, 60000, Some(FRACTION_SCALE));
    let bid2 = Bid::new(user2.clone(), 1, BidType::XOR, 70000, Some(FRACTION_SCALE));

    let mut allocation: AssocMap<Vec<AssetInfo>> = AssocMap::new();
    allocation.upsert(1, vec![AssetInfo::new(Asset::new("BTC", "USD"), FRACTION_SCALE, 30000)]);
    allocation.upsert(2, vec![AssetInfo::new(Asset::new("BTC", "USD"), FRACTION_SCALE, 30000)]);

    let bids = vec![bid1, bid2];
    let result = Clearing::clear_winning_bids(&bids, &allocation);

    assert!(result.is_err());
    assert_eq!(result.unwrap_err(), ClearingError::InsufficientFunds(1));
}

#[test]
fn test_cca_auction_no_excess_demand() {
    let user1 = User::new(1, "Alice", 1_000_000);
    let user2 = User::new(2, "Bob", 2_000_000);
    let basket = two_asset_basket();

    let initial_prices = vec![30000, 2000];
    let price_increment = 100_000; // ten percent per round

    let bid1 = Bid::new(user1.clone(), 1, BidType::XOR, 60000, Some(500_000));
    let bid2 = Bid::new(user2.clone(), 1, BidType::XOR, 70000, Some(750_000));
    let bid3 = Bid::new(user1.clone(), 1, BidType::XOR, 80000, Some(500_000));

    let bids = vec![bid1, bid2, bid3];
    let outcome =
        CombiClockAuction::run_auction(&bids, &basket, initial_prices, price_increment, 10)
            .unwrap();

    // no asset is over-demanded in the first round
    assert!(outcome.converged);
    assert_eq!(outcome.rounds_used, 1);
    // the greedy solve gives Alice's first bid the BTC headroom; Bob's
    // three-quarter bid no longer fits, and Alice has already won once
    assert_eq!(outcome.winning_bids.len(), 1);
    assert_eq!(outcome.winning_bids[0].price, 60000);
    // prices never moved
    assert_eq!(outcome.final_prices, vec![30000, 2000]);
}

#[test]
fn test_cca_auction_w_excess_demand() {
    let user1 = User::new(1, "Alice", 1_000_000);
    let user2 = User::new(2, "Bob", 2_000_000);
    let user3 = User::new(3, "Charlie", 3_000_000);
    let basket = two_asset_basket();

    let initial_prices = vec![30000, 2000];
    let price_increment = 100_000; // ten percent per round

    let bid1 = Bid::new(user1.clone(), 1, BidType::XOR, 60000, Some(FRACTION_SCALE));
    let bid2 = Bid::new(user2.clone(), 1, BidType::XOR, 70000, Some(750_000));
    let bid3 = Bid::new(user3.clone(), 1, BidType::XOR, 80000, Some(500_000));

    let bids = vec![bid1, bid2, bid3];
    let outcome =
        CombiClockAuction::run_auction(&bids, &basket, initial_prices, price_increment, 20)
            .unwrap();

    // BTC starts over-demanded, so its price must have risen
    assert!(outcome.final_prices[0] > 30000);
    // the greedy solve hands Alice's whole-basket bid all the supply
    assert_eq!(outcome.winning_bids.len(), 1);
    assert_eq!(outcome.winning_bids[0].user.id, 1);
    assert_eq!(outcome.settled.get(1).unwrap().balance, 940_000);
}

#[test]
fn test_cca_auction_with_clearing() {
    let user1 = User::new(1, "Alice", 1_000_000);
    let user2 = User::new(2, "Bob", 2_000_000);
    let user3 = User::new(3, "Charlie", 3_000_000);
    let basket = two_asset_basket();

    let initial_prices = vec![30000, 2000];
    let price_increment = 100_000;

    let bid1 = Bid::new(user1.clone(), 1, BidType::XOR, 60000, Some(FRACTION_SCALE));
    let bid2 = Bid::new(user2.clone(), 1, BidType::XOR, 70000, Some(750_000));
    let bid3 = Bid::new(user3.clone(), 1, BidType::XOR, 80000, Some(500_000));

    let bids = vec![bid1, bid2, bid3];
    let outcome =
        CombiClockAuction::run_auction(&bids, &basket, initial_prices, price_increment, 10)
            .unwrap();

    // the greedy winner is Alice's whole-basket bid, and settlement
    // withdrew its price; the other bidders paid nothing
    assert_eq!(outcome.winning_bids.len(), 1);
    assert_eq!(outcome.settled.get(1).unwrap().balance, 940_000);
    assert!(outcome.settled.get(2).is_none());
    assert!(outcome.settled.get(3).is_none());
    assert!(outcome.rounds_used <= 10);
}

#[test]
fn test_cca_activity_rule_drops_silent_bidders() {
    let round_bids = vec![
        Bid::new(User::new(1, "Able", 1000), 1, BidType::XOR, 100, None),
        Bid::new(User::new(3, "Carol", 1000), 1, BidType::XOR, 100, None),
    ];
    let eligible = vec![1, 2, 3];
    let shrunk = CombiClockAuction::apply_activity_rule(&eligible, &round_bids);
    assert_eq!(shrunk, vec![1, 3]);
}

#[test]
fn test_cca_update_prices_formula() {
    // excess of a quarter basket on an asset priced 30000 with a ten
    // percent base rate: the dynamic increment adds 8 millionths, and
    // the new price floors at exactly 33000
    let prices = vec![30000, 2000];
    let excess = vec![250_000, 0];
    let updated = CombiClockAuction::update_prices(&prices, &excess, 100_000);
    assert_eq!(updated[0], 33000);
    // an asset without excess demand keeps its price
    assert_eq!(updated[1], 2000);
}

#[test]
fn test_cca_zero_round_budget() {
    let user1 = User::new(1, "Alice", 1_000_000);
    let basket = two_asset_basket();
    let bids = vec![Bid::new(user1, 1, BidType::XOR, 60000, Some(500_000))];
    let outcome =
        CombiClockAuction::run_auction(&bids, &basket, vec![30000, 2000], 100_000, 0).unwrap();
    assert_eq!(outcome.winning_bids.len(), 0);
    assert_eq!(outcome.rounds_used, 0);
    assert!(!outcome.converged);
    assert_eq!(outcome.settled.len(), 0);
}
