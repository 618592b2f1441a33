//! Tests of the winner-determination solver family, over one sample
//! basket of 2 BTC at 30000 and 5 ETH at 2000, and three bids demanding
//! 1, 1.5 and 2 BTC-equivalent units of the 2-BTC supply: fractions of
//! one half, three quarters, and the whole basket.

use auction::model::{Asset, AssetInfo, Basket, Bid, BidType, User, FRACTION_SCALE};
use auction::wdp::WDPSolver;

fn setup_sample_data() -> (Basket, Vec<Bid>) {
    let user1 = User::new(1, "Alice", 1_000_000);
    let user2 = User::new(2, "Bob", 2_000_000);
    let user3 = User::new(3, "Charlie", 3_000_000);

    let basket = Basket {
        id: 1,
        assets: vec![
            AssetInfo::new(Asset::new("BTC", "USD"), 2 * FRACTION_SCALE, 30000),
            AssetInfo::new(Asset::new("ETH", "USD"), 5 * FRACTION_SCALE, 2000),
        ],
    };

    // demands of 1, 1.5 and 2 BTC out of the 2-BTC supply
    let bid1 = Bid::new(user1.clone(), 1, BidType::XOR, 60000, Some(500_000));
    let bid2 = Bid::new(user2.clone(), 1, BidType::XOR, 70000, Some(750_000));
    let bid3 = Bid::new(user3.clone(), 1, BidType::XOR, 80000, Some(FRACTION_SCALE));

    (basket, vec![bid1, bid2, bid3])
}

#[test]
fn test_solve_xor() {
    let (basket, bids) = setup_sample_data();

    let winning_bid = WDPSolver::solve_xor(&bids, &basket);
    assert!(winning_bid.is_some());
    // Charlie's bid wins: the highest price
    assert_eq!(winning_bid.unwrap().price, 80000);
}

#[test]
fn test_solve_or() {
    let (basket, bids) = setup_sample_data();

    // accept-all: every valid bid wins, with no supply check
    let (winning_bids, allocation) = WDPSolver::solve_or(&bids, &basket);
    assert_eq!(winning_bids.len(), 3);
    assert_eq!(allocation.len(), 3);
}

#[test]
fn test_maximize_welfare_vcg() {
    let (basket, bids) = setup_sample_data();

    let (winning_bids, total_value) = WDPSolver::maximize_welfare_vcg(&bids, &basket);
    // the naive welfare oracle accepts every valid bid
    assert_eq!(winning_bids.len(), 3);
    assert_eq!(total_value, 210000);
}

#[test]
fn test_maximize_welfare_cca() {
    let (basket, bids) = setup_sample_data();

    let (winning_bids, total_value) = WDPSolver::maximize_welfare_cca(&bids, &basket);
    // greedy in input order: the half-basket bid uses 1 BTC, after
    // which neither 1.5 BTC nor 2 BTC fits the remaining 1 BTC
    assert_eq!(winning_bids.len(), 1);
    assert_eq!(winning_bids[0].user.id, 1);
    assert_eq!(total_value, 60000);
}

#[test]
fn test_branch_and_bound() {
    let (basket, bids) = setup_sample_data();

    let (winning_bids, total_value) = WDPSolver::branch_and_bound(&bids, &basket);
    // every pair over-demands BTC, so the best feasible subset is the
    // single highest bid
    assert_eq!(winning_bids.len(), 1);
    assert_eq!(total_value, 80000);
}

#[test]
fn test_dynamic_programming() {
    let (basket, bids) = setup_sample_data();

    let (winning_bids, total_value) = WDPSolver::dynamic_programming(&bids, &basket);
    // weights of 50, 75 and 100 hundredths: no two fit the 100-unit
    // budget, so the whole-basket bid alone is best
    assert_eq!(winning_bids.len(), 1);
    assert_eq!(total_value, 80000);
}

#[test]
fn test_branch_and_bound_empty_is_zero_welfare() {
    let basket = Basket {
        id: 1,
        assets: vec![AssetInfo::new(Asset::new("BTC", "USD"), 2 * FRACTION_SCALE, 30000)],
    };
    let bids: Vec<Bid> = vec![];
    let (winning_bids, total_value) = WDPSolver::branch_and_bound(&bids, &basket);
    assert_eq!(winning_bids.len(), 0);
    assert_eq!(total_value, 0);
}

#[test]
fn test_dynamic_programming_packs_complements() {
    // a quarter and three quarters pack exactly; the greedy order never
    // sees them together, but the knapsack does
    let u1 = User::new(1, "Able", 1_000_000);
    let u2 = User::new(2, "Baker", 1_000_000);
    let u3 = User::new(3, "Carol", 1_000_000);
    let basket = Basket {
        id: 1,
        assets: vec![AssetInfo::new(Asset::new("BTC", "USD"), 2 * FRACTION_SCALE, 30000)],
    };
    let bids = vec![
        Bid::new(u1, 1, BidType::XOR, 40000, Some(250_000)),
        Bid::new(u2, 1, BidType::XOR, 35000, Some(750_000)),
        Bid::new(u3, 1, BidType::XOR, 50000, Some(900_000)),
    ];
    let (winning_bids, total_value) = WDPSolver::dynamic_programming(&bids, &basket);
    assert_eq!(total_value, 75000);
    assert_eq!(winning_bids.len(), 2);
}
