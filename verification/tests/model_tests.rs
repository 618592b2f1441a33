//! Tests of the core data model. Monetary amounts are integer currency
//! units; fractions and quantities are scaled by `FRACTION_SCALE`
//! (one million), so a fraction of one half is 500_000 and a quantity
//! of two whole units is 2_000_000.

use auction::model::{Asset, AssetInfo, Basket, Bid, BidType, User, FRACTION_SCALE};

fn frac(thousandths: u64) -> u64 {
    thousandths * FRACTION_SCALE / 1000
}

#[test]
fn test_user_creation() {
    let user = User::new(1, "Alice", 1000);
    assert_eq!(user.id, 1);
    assert_eq!(user.name, "Alice");
    assert_eq!(user.balance, 1000);
}

#[test]
fn test_user_deposit_withdraw() {
    let mut user = User::new(1, "Alice", 1000);
    user.deposit(500);
    assert_eq!(user.balance, 1500);
    user.withdraw(300);
    assert_eq!(user.balance, 1200);
}

#[test]
fn test_user_can_afford() {
    let user = User::new(1, "Alice", 1000);
    assert!(user.can_afford(500));
    assert!(!user.can_afford(1500));
}

#[test]
fn test_asset_creation() {
    let asset = Asset::new("BTC", "USD");
    assert_eq!(asset.base, "BTC");
    assert_eq!(asset.quote, "USD");
}

#[test]
fn test_asset_from_str() {
    let asset = Asset::from_str("BTC/USD");
    assert_eq!(asset.base, "BTC");
    assert_eq!(asset.quote, "USD");
}

#[test]
fn test_asset_from_str_keeps_first_segments() {
    // the quote symbol ends at the next separator
    let asset = Asset::from_str("BTC/USD/SPOT");
    assert_eq!(asset.base, "BTC");
    assert_eq!(asset.quote, "USD");
}

#[test]
fn test_asset_info_total_value() {
    let asset = Asset::new("BTC", "USD");
    let asset_info = AssetInfo::new(asset, 2 * FRACTION_SCALE, 30000);
    assert_eq!(asset_info.total_value(), 60000);
}

#[test]
fn test_asset_info_update_price() {
    let asset = Asset::new("BTC", "USD");
    let mut asset_info = AssetInfo::new(asset, 2 * FRACTION_SCALE, 30000);
    asset_info.update_price(35000);
    assert_eq!(asset_info.price, 35000);
    assert_eq!(asset_info.total_value(), 2 * 35000);
}

#[test]
fn test_asset_info_from_str() {
    let asset_info = AssetInfo::from_str("ETH/USD", 5 * FRACTION_SCALE, 2000);
    assert_eq!(asset_info.asset.base, "ETH");
    assert_eq!(asset_info.asset.quote, "USD");
    assert_eq!(asset_info.total_value(), 10000);
}

#[test]
fn test_basket_total_value() {
    let asset1 = AssetInfo::new(Asset::new("BTC", "USD"), 2 * FRACTION_SCALE, 30000);
    let asset2 = AssetInfo::new(Asset::new("ETH", "USD"), 5 * FRACTION_SCALE, 2000);
    let basket = Basket { id: 1, assets: vec![asset1, asset2] };
    assert_eq!(basket.total_value(), 70000);
}

#[test]
fn test_basket_update_asset_price() {
    let asset = Asset::new("BTC", "USD");
    let asset_info = AssetInfo::new(asset.clone(), 2 * FRACTION_SCALE, 30000);
    let mut basket = Basket { id: 1, assets: vec![asset_info] };
    basket.update_price(&asset, 35000);
    assert_eq!(basket.assets[0].price, 35000);
    assert_eq!(basket.total_value(), 70000);
}

#[test]
fn test_basket_is_asset_in_basket() {
    let asset_info = AssetInfo::new(Asset::new("BTC", "USD"), 2 * FRACTION_SCALE, 30000);
    let basket = Basket { id: 1, assets: vec![asset_info.clone()] };
    assert!(basket.is_asset_in_basket(&asset_info));

    let other_asset_info = AssetInfo::new(Asset::new("ETH", "USD"), 5 * FRACTION_SCALE, 2000);
    assert!(!basket.is_asset_in_basket(&other_asset_info));
}

#[test]
fn test_basket_asset_amount_in_basket() {
    let asset_info = AssetInfo::new(Asset::new("BTC", "USD"), 2 * FRACTION_SCALE, 30000);
    let basket = Basket { id: 1, assets: vec![asset_info.clone()] };
    assert_eq!(basket.asset_amount_in_basket(&asset_info), 2 * FRACTION_SCALE);

    let other_asset_info = AssetInfo::new(Asset::new("ETH", "USD"), 5 * FRACTION_SCALE, 2000);
    assert_eq!(basket.asset_amount_in_basket(&other_asset_info), 0);
}

#[test]
fn test_basket_asset_value_in_basket() {
    let asset_info = AssetInfo::new(Asset::new("BTC", "USD"), 2 * FRACTION_SCALE, 30000);
    let basket = Basket { id: 1, assets: vec![asset_info.clone()] };
    assert_eq!(basket.asset_value_in_basket(&asset_info), 60000);

    let other_asset_info = AssetInfo::new(Asset::new("ETH", "USD"), 5 * FRACTION_SCALE, 2000);
    assert_eq!(basket.asset_value_in_basket(&other_asset_info), 0);
}

#[test]
fn test_basket_assets_valuation() {
    let asset1 = AssetInfo::new(Asset::new("BTC", "USD"), 2 * FRACTION_SCALE, 30000);
    let asset2 = AssetInfo::new(Asset::new("ETH", "USD"), 5 * FRACTION_SCALE, 2000);
    let basket = Basket { id: 1, assets: vec![asset1.clone(), asset2.clone()] };
    let valuation = basket.assets_valuation();
    assert_eq!(valuation.len(), 2);
    assert_eq!(valuation[0].0, asset1.asset);
    assert_eq!(valuation[0].1, 60000);
    assert_eq!(valuation[1].0, asset2.asset);
    assert_eq!(valuation[1].1, 10000);
}

#[test]
fn test_bid_creation() {
    let user = User::new(1, "Alice", 1000);
    let bid = Bid::new(user.clone(), 1, BidType::XOR, 500, Some(frac(200)));
    assert_eq!(bid.user.id, 1);
    assert_eq!(bid.basket_id, 1);
    assert_eq!(bid.bid_type, BidType::XOR);
    assert_eq!(bid.price, 500);
    assert_eq!(bid.quantity, Some(200_000));
}

#[test]
fn test_bid_is_valid() {
    let user = User::new(1, "Alice", 1000);
    let bid = Bid::new(user.clone(), 1, BidType::XOR, 500, Some(frac(200)));
    assert!(bid.is_valid());

    let invalid_bid = Bid::new(user.clone(), 1, BidType::XOR, 1500, Some(frac(200)));
    assert!(!invalid_bid.is_valid());
}

#[test]
fn test_bid_match_basket() {
    let user = User::new(1, "Alice", 1000);
    let bid = Bid::new(user.clone(), 1, BidType::XOR, 500, Some(frac(200)));

    let basket1 = Basket { id: 1, assets: vec![] };
    let basket2 = Basket { id: 2, assets: vec![] };
    let baskets = vec![basket1, basket2];

    let matched_basket = bid.match_basket(&baskets);
    assert!(matched_basket.is_some());
    assert_eq!(matched_basket.unwrap().id, 1);
}

#[test]
fn test_bid_comparisons() {
    let user1 = User::new(1, "Alice", 1000);
    let user2 = User::new(2, "Bob", 500);

    let bid1 = Bid::new(user1.clone(), 1, BidType::XOR, 400, Some(frac(200)));
    let bid2 = Bid::new(user2.clone(), 1, BidType::XOR, 300, Some(frac(200)));

    assert!(bid1 > bid2);
    assert!(bid2 < bid1);
}

#[test]
fn test_bid_creation_with_optional_quantity() {
    let user = User::new(1, "Alice", 1000);

    // a bid for half of the basket
    let bid_half = Bid::new(user.clone(), 1, BidType::XOR, 500, Some(frac(500)));
    assert_eq!(bid_half.quantity, Some(500_000));

    // a bid for the entire basket (no fraction given)
    let bid_full = Bid::new(user.clone(), 1, BidType::XOR, 500, None);
    assert_eq!(bid_full.quantity, None);
}

#[test]
fn test_bid_is_valid_with_optional_quantity() {
    let user = User::new(1, "Alice", 1000);

    let valid_half_bid = Bid::new(user.clone(), 1, BidType::XOR, 500, Some(frac(500)));
    assert!(valid_half_bid.is_valid());

    let valid_full_bid = Bid::new(user.clone(), 1, BidType::XOR, 500, None);
    assert!(valid_full_bid.is_valid());

    // a fraction above the whole basket is invalid
    let invalid_bid_high_proportion =
        Bid::new(user.clone(), 1, BidType::XOR, 500, Some(frac(1500)));
    assert!(!invalid_bid_high_proportion.is_valid());

    // a zero fraction is invalid
    let invalid_bid_zero_quantity = Bid::new(user.clone(), 1, BidType::XOR, 500, Some(0));
    assert!(!invalid_bid_zero_quantity.is_valid());
}

#[test]
fn test_bid_estimate_value_of_bid_with_optional_quantity() {
    let user = User::new(1, "Alice", 1000);

    let asset1 = AssetInfo::new(Asset::new("BTC", "USD"), 2 * FRACTION_SCALE, 30000);
    let asset2 = AssetInfo::new(Asset::new("ETH", "USD"), 5 * FRACTION_SCALE, 2000);
    let basket = Basket { id: 1, assets: vec![asset1, asset2] };

    // a bid for half of the basket
    let bid_half = Bid::new(user.clone(), 1, BidType::XOR, 500, Some(frac(500)));
    assert_eq!(bid_half.estimate_value_of_bid(&basket), 35000);

    // a bid for the entire basket
    let bid_full = Bid::new(user.clone(), 1, BidType::XOR, 1000, None);
    assert_eq!(bid_full.estimate_value_of_bid(&basket), 70000);
}
