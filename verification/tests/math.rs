//! Prices, auctions, expiry, rebates and pauses.

use dlob::market_operations::MarketOperations;
use dlob::math::auction::{get_auction_price, is_auction_complete, is_fallback_available};
use dlob::math::order::{
    checked_limit_price, get_limit_price, is_order_expired, is_resting_limit_order,
};
use dlob::types::{
    FeeStructure, FeeTier, MarketType, OraclePriceData, Order, OrderStatus, OrderType, PerpMarket,
    PositionDirection, SpotMarket, State, AMM_PAUSED, EXCHANGE_ACTIVE, FILL_PAUSED,
};

fn oracle(price: i64) -> OraclePriceData {
    OraclePriceData {
        price,
        confidence: 1,
        delay: 0,
        has_sufficient_number_of_data_points: true,
    }
}

fn fees(numerator: u32, denominator: u32) -> FeeStructure {
    FeeStructure {
        fee_tiers: [FeeTier {
            maker_rebate_numerator: numerator,
            maker_rebate_denominator: denominator,
        }; 10],
    }
}

fn state(exchange_status: u8) -> State {
    State {
        exchange_status,
        perp_fee_structure: fees(20, 10_000),
        spot_fee_structure: fees(30, 20_000),
        min_perp_auction_duration: 10,
    }
}

fn perp() -> PerpMarket {
    PerpMarket {
        market_index: 3,
        fee_adjustment: 0,
        amm_fill_paused: false,
        fill_paused: false,
        too_much_drawdown: Some(false),
    }
}

fn spot() -> SpotMarket {
    SpotMarket {
        market_index: 4,
        fill_paused: false,
    }
}

#[test]
fn auction_runs_through_its_last_slot() {
    let order = Order {
        slot: 10,
        auction_duration: 5,
        ..Order::default()
    };
    assert!(!is_auction_complete(&order, 3));
    assert!(!is_auction_complete(&order, 15));
    assert!(is_auction_complete(&order, 16));
    assert!(is_auction_complete(&order, 1000));
    let late = Order {
        slot: u64::MAX,
        ..order
    };
    assert!(!is_auction_complete(&late, u64::MAX));
    assert!(is_auction_complete(&Order::default(), 0));
}

#[test]
fn auction_price_moves_on_a_line() {
    let order = Order {
        slot: 10,
        auction_duration: 10,
        auction_start_price: 100,
        auction_end_price: 200,
        order_type: OrderType::Market,
        ..Order::default()
    };
    assert_eq!(get_auction_price(&order, 5, 0), 100);
    assert_eq!(get_auction_price(&order, 10, 0), 100);
    assert_eq!(get_auction_price(&order, 13, 0), 130);
    assert_eq!(get_auction_price(&order, 20, 0), 200);
    assert_eq!(get_auction_price(&order, 99, 0), 200);
    let falling = Order {
        auction_start_price: 200,
        auction_end_price: 99,
        ..order
    };
    assert_eq!(get_auction_price(&falling, 15, 0), 150);
    let offsets = Order {
        order_type: OrderType::Oracle,
        auction_start_price: -10,
        auction_end_price: 10,
        ..order
    };
    assert_eq!(get_auction_price(&offsets, 10, 1000), 990);
    assert_eq!(get_auction_price(&offsets, 10, 5), -5);
}

#[test]
fn price_comes_from_auction_then_offset_then_limit_then_fallback() {
    let order = Order {
        slot: 10,
        price: 77,
        oracle_price_offset: -4,
        auction_duration: 10,
        auction_start_price: 100,
        auction_end_price: 200,
        ..Order::default()
    };
    assert_eq!(get_limit_price(&order, &oracle(50), 12, None), 120);
    assert_eq!(get_limit_price(&order, &oracle(50), 30, None), 46);
    let fixed = Order {
        oracle_price_offset: 0,
        ..order
    };
    assert_eq!(get_limit_price(&fixed, &oracle(50), 30, Some(5)), 77);
    let unpriced = Order { price: 0, ..fixed };
    assert_eq!(get_limit_price(&unpriced, &oracle(50), 30, Some(5)), 5);
    let no_auction_prices = Order {
        auction_start_price: 0,
        auction_end_price: 0,
        ..fixed
    };
    assert_eq!(get_limit_price(&no_auction_prices, &oracle(50), 12, None), 77);
}

#[test]
fn price_is_missing_or_does_not_fit() {
    let unpriced = Order::default();
    assert_eq!(checked_limit_price(&unpriced, &oracle(50), 30, None), None);
    assert_eq!(
        checked_limit_price(&unpriced, &oracle(50), 30, Some(9)),
        Some(9)
    );
    let negative = Order {
        oracle_price_offset: -60,
        ..unpriced
    };
    assert_eq!(checked_limit_price(&negative, &oracle(50), 30, Some(9)), None);
    assert_eq!(
        checked_limit_price(&negative, &oracle(60), 30, Some(9)),
        Some(0)
    );
}

#[test]
fn price_ignores_what_is_filled() {
    let order = Order {
        price: 77,
        base_asset_amount: 10,
        ..Order::default()
    };
    let filled = Order {
        base_asset_amount_filled: 9,
        ..order
    };
    assert_eq!(
        get_limit_price(&order, &oracle(1), 5, None),
        get_limit_price(&filled, &oracle(1), 5, None)
    );
}

#[test]
fn limit_orders_rest_after_the_auction_or_when_post_only() {
    let order = Order {
        slot: 10,
        auction_duration: 5,
        order_type: OrderType::Limit,
        ..Order::default()
    };
    assert!(!is_resting_limit_order(&order, 15));
    assert!(is_resting_limit_order(&order, 16));
    assert!(is_resting_limit_order(&order, 17));
    let post_only = Order {
        post_only: true,
        ..order
    };
    assert!(is_resting_limit_order(&post_only, 11));
    let market = Order {
        order_type: OrderType::Market,
        ..post_only
    };
    assert!(!is_resting_limit_order(&market, 100));
}

#[test]
fn trigger_limit_orders_rest_on_the_right_side_of_their_limit() {
    let long = Order {
        slot: 10,
        auction_duration: 5,
        order_type: OrderType::TriggerLimit,
        direction: PositionDirection::Long,
        price: 100,
        trigger_price: 99,
        post_only: true,
        ..Order::default()
    };
    assert!(!is_resting_limit_order(&long, 100));
    let at_limit = Order {
        trigger_price: 100,
        ..long
    };
    assert!(is_resting_limit_order(&at_limit, 100));
    assert!(!is_resting_limit_order(&at_limit, 12));
    let short = Order {
        direction: PositionDirection::Short,
        ..long
    };
    assert!(is_resting_limit_order(&short, 100));
    let short_above = Order {
        trigger_price: 101,
        ..short
    };
    assert!(!is_resting_limit_order(&short_above, 100));
}

#[test]
fn limit_orders_expire_after_a_buffer() {
    let order = Order {
        status: OrderStatus::Open,
        order_type: OrderType::Limit,
        max_ts: 1000,
        ..Order::default()
    };
    assert!(!is_order_expired(&order, 1000, false));
    assert!(is_order_expired(&order, 1001, false));
    assert!(!is_order_expired(&order, 1015, true));
    assert!(is_order_expired(&order, 1016, true));
    let market = Order {
        order_type: OrderType::Market,
        ..order
    };
    assert!(is_order_expired(&market, 1001, true));
    let waiting = Order {
        order_type: OrderType::TriggerLimit,
        ..order
    };
    assert!(!is_order_expired(&waiting, 9999, true));
    let canceled = Order {
        status: OrderStatus::Canceled,
        ..order
    };
    assert!(!is_order_expired(&canceled, 9999, true));
    let lasting = Order { max_ts: 0, ..order };
    assert!(!is_order_expired(&lasting, 9999, true));
}

#[test]
fn fallback_waits_for_the_minimal_auction() {
    let order = Order {
        slot: 10,
        ..Order::default()
    };
    assert!(is_fallback_available(&order, 0, 0));
    assert!(!is_fallback_available(&order, 5, 15));
    assert!(is_fallback_available(&order, 5, 16));
    assert!(!is_fallback_available(&order, 5, 3));
}

#[test]
fn rebate_of_a_perp_market_is_adjusted() {
    let market = perp();
    assert_eq!(market.calculate_maker_rebate(&state(0)), (20, 10_000));
    let raised = PerpMarket {
        fee_adjustment: 50,
        ..market
    };
    assert_eq!(raised.calculate_maker_rebate(&state(0)), (30, 10_000));
    let lowered = PerpMarket {
        fee_adjustment: -33,
        ..market
    };
    assert_eq!(lowered.calculate_maker_rebate(&state(0)), (14, 10_000));
    let negative = PerpMarket {
        fee_adjustment: -110,
        ..market
    };
    assert_eq!(
        negative.calculate_maker_rebate(&state(0)),
        (u64::MAX - 1, 10_000)
    );
}

#[test]
fn rebate_of_a_spot_market_is_that_of_the_tier() {
    assert_eq!(spot().calculate_maker_rebate(&state(0)), (30, 20_000));
}

#[test]
fn markets_know_their_kind_and_index() {
    assert_eq!(perp().market_type(), MarketType::Perp);
    assert_eq!(perp().market_index(), 3);
    assert_eq!(spot().market_type(), MarketType::Spot);
    assert_eq!(spot().market_index(), 4);
}

#[test]
fn pauses_of_a_perp_market() {
    let active = state(EXCHANGE_ACTIVE);
    assert!(!perp().is_amm_paused(&active));
    assert!(!perp().is_fill_paused(&active));
    assert!(perp().is_amm_paused(&state(AMM_PAUSED)));
    assert!(!perp().is_amm_paused(&state(FILL_PAUSED)));
    assert!(perp().is_fill_paused(&state(FILL_PAUSED)));
    assert!(perp().is_fill_paused(&state(AMM_PAUSED | FILL_PAUSED)));
    let op_paused = PerpMarket {
        amm_fill_paused: true,
        ..perp()
    };
    assert!(op_paused.is_amm_paused(&active));
    assert!(!op_paused.is_fill_paused(&active));
    let drawn_down = PerpMarket {
        too_much_drawdown: Some(true),
        ..perp()
    };
    assert!(drawn_down.is_amm_paused(&active));
    let fill_paused = PerpMarket {
        fill_paused: true,
        ..perp()
    };
    assert!(fill_paused.is_fill_paused(&active));
}

#[test]
fn pauses_of_a_spot_market() {
    let active = state(EXCHANGE_ACTIVE);
    assert!(!spot().is_amm_paused(&active));
    assert!(!spot().is_fill_paused(&active));
    assert!(spot().is_amm_paused(&state(AMM_PAUSED)));
    assert!(spot().is_fill_paused(&state(FILL_PAUSED)));
    let fill_paused = SpotMarket {
        fill_paused: true,
        ..spot()
    };
    assert!(fill_paused.is_fill_paused(&active));
}
