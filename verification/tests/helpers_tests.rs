//! Tests of validation, ordering, valuation, allocation and the
//! feasibility predicate.

use auction::helpers::{
    allocate_basket, can_fulfill, evaluate_or_bids, evaluate_partial_or_bids,
    evaluate_partial_xor_bids, evaluate_xor_bids, filter_valid_bids, get_highest_bid,
    sort_bids_by_price, total_value_of_bids_for_basket,
};
use auction::model::{Asset, AssetInfo, Basket, Bid, BidType, User, FRACTION_SCALE};

fn create_user(can_afford: bool) -> User {
    User::new(1, "Test User", if can_afford { 1000 } else { 10 })
}

fn create_bid(user: User, basket_id: u64, bid_type: BidType, price: u64, quantity: Option<u64>) -> Bid {
    Bid::new(user, basket_id, bid_type, price, quantity)
}

fn create_basket(id: u64, assets: Vec<AssetInfo>) -> Basket {
    Basket { id, assets }
}

#[test]
fn test_filter_valid_bids() {
    let user = create_user(true);
    let basket = create_basket(1, vec![]);

    let valid_bid = create_bid(user.clone(), 1, BidType::XOR, 100, Some(500_000));
    // this bid names another basket
    let invalid_bid = create_bid(user.clone(), 2, BidType::XOR, 200, Some(500_000));

    let bids = vec![valid_bid, invalid_bid];
    let valid_bids = filter_valid_bids(&bids, &basket);

    assert_eq!(valid_bids.len(), 1);
    assert_eq!(valid_bids[0].basket_id, basket.id);
}

#[test]
fn test_filter_rejects_invalid_bids() {
    let rich = User::new(1, "Able", 1_000_000);
    let poor = User::new(2, "Baker", 10);
    let basket = create_basket(1, vec![]);

    let good = create_bid(rich.clone(), 1, BidType::OR, 100, Some(FRACTION_SCALE));
    let unaffordable = create_bid(poor.clone(), 1, BidType::OR, 100, Some(FRACTION_SCALE));
    let zero_price = create_bid(rich.clone(), 1, BidType::OR, 0, Some(FRACTION_SCALE));
    let zero_fraction = create_bid(rich.clone(), 1, BidType::OR, 100, Some(0));
    let oversize_fraction = create_bid(rich.clone(), 1, BidType::OR, 100, Some(FRACTION_SCALE + 1));

    let bids = vec![good, unaffordable, zero_price, zero_fraction, oversize_fraction];
    let valid_bids = filter_valid_bids(&bids, &basket);
    assert_eq!(valid_bids.len(), 1);
    assert_eq!(valid_bids[0].user.id, 1);
    assert_eq!(valid_bids[0].price, 100);
}

#[test]
fn test_sort_bids_by_price() {
    let user = create_user(true);
    let bid1 = create_bid(user.clone(), 1, BidType::XOR, 100, None);
    let bid2 = create_bid(user.clone(), 1, BidType::XOR, 200, None);
    let bid3 = create_bid(user.clone(), 1, BidType::XOR, 50, None);

    let bids = vec![bid1, bid2, bid3];
    let sorted_bids = sort_bids_by_price(&bids);

    assert_eq!(sorted_bids[0].price, 200);
    assert_eq!(sorted_bids[1].price, 100);
    assert_eq!(sorted_bids[2].price, 50);
}

#[test]
fn test_get_highest_bid() {
    let user = create_user(true);
    let bid1 = create_bid(user.clone(), 1, BidType::XOR, 100, None);
    let bid2 = create_bid(user.clone(), 1, BidType::XOR, 200, None);
    let bid3 = create_bid(user.clone(), 1, BidType::XOR, 50, None);

    let bids = vec![bid1, bid2, bid3];
    let highest_bid = get_highest_bid(&bids);

    assert!(highest_bid.is_some());
    assert_eq!(highest_bid.unwrap().price, 200);
}

#[test]
fn test_get_highest_bid_empty_and_ties() {
    let empty: Vec<Bid> = vec![];
    assert!(get_highest_bid(&empty).is_none());

    let user = create_user(true);
    let bid1 = create_bid(user.clone(), 1, BidType::XOR, 200, None);
    let bid2 = create_bid(user.clone(), 1, BidType::XOR, 200, None);
    let bids = vec![bid1, bid2];
    // ties may resolve either way, but the price is pinned
    assert_eq!(get_highest_bid(&bids).unwrap().price, 200);
}

#[test]
fn test_evaluate_xor_bids() {
    let user = create_user(true);
    let basket = create_basket(1, vec![]);
    let bid1 = create_bid(user.clone(), 1, BidType::XOR, 100, None);
    let bid2 = create_bid(user.clone(), 1, BidType::XOR, 200, None);

    let bids = vec![bid1, bid2];
    let highest_bid = evaluate_xor_bids(&bids, &basket);

    assert!(highest_bid.is_some());
    assert_eq!(highest_bid.unwrap().price, 200);
}

#[test]
fn test_evaluate_xor_bids_empty() {
    let basket = create_basket(1, vec![]);
    let bids: Vec<Bid> = vec![];
    assert!(evaluate_xor_bids(&bids, &basket).is_none());
}

#[test]
fn test_evaluate_or_bids() {
    let user = create_user(true);
    let basket = create_basket(1, vec![]);
    let bid1 = create_bid(user.clone(), 1, BidType::OR, 100, None);
    let bid2 = create_bid(user.clone(), 1, BidType::OR, 200, None);

    let bids = vec![bid1, bid2];
    let valid_bids = evaluate_or_bids(&bids, &basket);

    assert_eq!(valid_bids.len(), 2);
    assert_eq!(valid_bids[0].price, 100);
    assert_eq!(valid_bids[1].price, 200);
}

#[test]
fn test_total_value_of_bids_for_basket() {
    let user = create_user(true);
    let asset_info = AssetInfo::new(Asset::new("BTC", "USDC"), 10 * FRACTION_SCALE, 100);
    let basket = create_basket(1, vec![asset_info.clone()]);
    // half of the basket's value, then the full basket
    let bid1 = create_bid(user.clone(), 1, BidType::XOR, 100, Some(500_000));
    let bid2 = create_bid(user.clone(), 1, BidType::XOR, 200, None);

    let bids = vec![bid1, bid2];
    let total_value = total_value_of_bids_for_basket(&bids, &basket);

    let expected_value = (asset_info.total_value() / 2 + asset_info.total_value()) as u128;
    assert_eq!(total_value, expected_value);
}

#[test]
fn test_evaluate_xor_bids_for_basket() {
    let user1 = User::new(1, "Alice", 100_000);
    let user2 = User::new(2, "Bob", 200_000);

    let basket = Basket {
        id: 1,
        assets: vec![
            AssetInfo::new(Asset::new("BTC", "USD"), 2 * FRACTION_SCALE, 30000),
            AssetInfo::new(Asset::new("ETH", "USD"), 5 * FRACTION_SCALE, 2000),
        ],
    };

    let bid1 = Bid::new(user1.clone(), 1, BidType::XOR, 60000, Some(FRACTION_SCALE));
    let bid2 = Bid::new(user2.clone(), 1, BidType::XOR, 65000, Some(FRACTION_SCALE));
    let bids = vec![bid1, bid2];

    let result = evaluate_xor_bids(&bids, &basket);
    assert!(result.is_some());
    assert_eq!(result.unwrap().user.id, 2);
}

#[test]
fn test_evaluate_or_bids_for_basket() {
    let user1 = User::new(1, "Alice", 100_000);
    let user2 = User::new(2, "Bob", 200_000);

    let basket = Basket {
        id: 1,
        assets: vec![
            AssetInfo::new(Asset::new("BTC", "USD"), 2 * FRACTION_SCALE, 30000),
            AssetInfo::new(Asset::new("ETH", "USD"), 5 * FRACTION_SCALE, 2000),
        ],
    };

    let bid1 = Bid::new(user1.clone(), 1, BidType::OR, 60000, Some(FRACTION_SCALE));
    let bid2 = Bid::new(user2.clone(), 1, BidType::OR, 65000, Some(FRACTION_SCALE));
    let bids = vec![bid1, bid2];

    let results = evaluate_or_bids(&bids, &basket);
    assert_eq!(results.len(), 2);
}

#[test]
fn test_evaluate_partial_xor_bids() {
    let user1 = User::new(1, "Alice", 1_000_000);
    let user2 = User::new(2, "Bob", 2_000_000);

    let basket = Basket {
        id: 1,
        assets: vec![
            AssetInfo::new(Asset::new("BTC", "USD"), 2 * FRACTION_SCALE, 30000),
            AssetInfo::new(Asset::new("ETH", "USD"), 5 * FRACTION_SCALE, 2000),
        ],
    };

    let bid1 = Bid::new(user1.clone(), 1, BidType::XOR, 60000, Some(FRACTION_SCALE));
    let bid2 = Bid::new(user2.clone(), 1, BidType::XOR, 65000, Some(FRACTION_SCALE));

    let bids = vec![bid1, bid2];
    let result = evaluate_partial_xor_bids(&bids, &basket);

    assert!(result.is_some());
    let (highest_bid, allocation) = result.unwrap();
    assert_eq!(highest_bid.user.id, 2);

    let allocated_assets = allocation.get(2).unwrap();
    assert_eq!(allocated_assets.len(), 2);
    assert_eq!(allocated_assets[0].quantity, 2 * FRACTION_SCALE);
    assert_eq!(allocated_assets[1].quantity, 5 * FRACTION_SCALE);
}

#[test]
fn test_evaluate_partial_or_bids() {
    let user1 = User::new(1, "Alice", 1_000_000);
    let user2 = User::new(2, "Bob", 2_000_000);

    let basket = Basket {
        id: 1,
        assets: vec![
            AssetInfo::new(Asset::new("BTC", "USD"), 2 * FRACTION_SCALE, 30000),
            AssetInfo::new(Asset::new("ETH", "USD"), 5 * FRACTION_SCALE, 2000),
        ],
    };

    let bid1 = Bid::new(user1.clone(), 1, BidType::OR, 60000, Some(500_000));
    let bid2 = Bid::new(user2.clone(), 1, BidType::OR, 65000, Some(FRACTION_SCALE));

    let bids = vec![bid1, bid2];
    let (valid_bids, allocation) = evaluate_partial_or_bids(&bids, &basket);

    assert_eq!(valid_bids.len(), 2);

    // Alice gets half of each constituent
    let alice_allocated_assets = allocation.get(1).unwrap();
    assert_eq!(alice_allocated_assets.len(), 2);
    assert_eq!(alice_allocated_assets[0].quantity, 1 * FRACTION_SCALE);
    assert_eq!(alice_allocated_assets[1].quantity, 2_500_000);

    // Bob gets the full basket
    let bob_allocated_assets = allocation.get(2).unwrap();
    assert_eq!(bob_allocated_assets.len(), 2);
    assert_eq!(bob_allocated_assets[0].quantity, 2 * FRACTION_SCALE);
    assert_eq!(bob_allocated_assets[1].quantity, 5 * FRACTION_SCALE);
}

#[test]
fn test_allocate_basket() {
    let user1 = User::new(1, "Alice", 1_000_000);
    let user2 = User::new(2, "Bob", 2_000_000);

    let basket = Basket {
        id: 1,
        assets: vec![
            AssetInfo::new(Asset::new("BTC", "USD"), 2 * FRACTION_SCALE, 30000),
            AssetInfo::new(Asset::new("ETH", "USD"), 5 * FRACTION_SCALE, 2000),
        ],
    };

    let bid1 = Bid::new(user1.clone(), 1, BidType::OR, 60000, Some(FRACTION_SCALE));
    let bid2 = Bid::new(user2.clone(), 1, BidType::OR, 65000, Some(FRACTION_SCALE));

    let bids = vec![bid1, bid2];
    let (valid_bids, allocation) = evaluate_partial_or_bids(&bids, &basket);

    assert_eq!(valid_bids.len(), 2);
    assert_eq!(allocation.get(1).unwrap().len(), 2);
    assert_eq!(allocation.get(2).unwrap().len(), 2);
}

#[test]
fn test_allocate_basket_keeps_unit_prices() {
    let user = User::new(7, "Carol", 1_000_000);
    let basket = Basket {
        id: 1,
        assets: vec![AssetInfo::new(Asset::new("BTC", "USD"), 2 * FRACTION_SCALE, 30000)],
    };
    let bid = Bid::new(user, 1, BidType::OR, 30000, Some(250_000));
    let bids = vec![bid];
    let allocation = allocate_basket(&bids, &basket);
    let bundle = allocation.get(7).unwrap();
    // a quarter of two whole units, at the constituent's unit price
    assert_eq!(bundle[0].quantity, 500_000);
    assert_eq!(bundle[0].price, 30000);
}

#[test]
fn test_can_fulfill_boundaries() {
    let u1 = User::new(1, "Able", 1_000_000);
    let u2 = User::new(2, "Baker", 1_000_000);
    let basket = Basket {
        id: 1,
        assets: vec![AssetInfo::new(Asset::new("BTC", "USD"), 2 * FRACTION_SCALE, 30000)],
    };

    // two half-basket bids exactly exhaust the supply
    let exact = vec![
        Bid::new(u1.clone(), 1, BidType::OR, 100, Some(500_000)),
        Bid::new(u2.clone(), 1, BidType::OR, 100, Some(500_000)),
    ];
    assert!(can_fulfill(&exact, &basket));

    // three half-basket bids exceed it
    let over = vec![
        Bid::new(u1.clone(), 1, BidType::OR, 100, Some(500_000)),
        Bid::new(u2.clone(), 1, BidType::OR, 100, Some(500_000)),
        Bid::new(u1.clone(), 1, BidType::OR, 100, Some(500_000)),
    ];
    assert!(!can_fulfill(&over, &basket));
}
