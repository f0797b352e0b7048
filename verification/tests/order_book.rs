//! The order book: inserting, finding, listing and counting orders.

use dlob::dlob::dlob::DLOB;
use dlob::dlob::node::{get_order_signature, Node, NodeType, SubType};
use dlob::pubkey::Pubkey;
use dlob::types::{
    MarketType, OraclePriceData, Order, OrderTriggerCondition, OrderType, PositionDirection,
};

const PRICE_PRECISION_U64: u64 = 1_000_000;

fn new_unique() -> Pubkey {
    Pubkey {
        bytes: solana_sdk::pubkey::Pubkey::new_unique().to_bytes(),
    }
}

fn oracle(price: i64) -> OraclePriceData {
    OraclePriceData {
        price,
        confidence: 1,
        delay: 0,
        has_sufficient_number_of_data_points: true,
    }
}

fn ids(nodes: &[Node]) -> Vec<u32> {
    nodes.iter().map(|node| node.get_order().order_id).collect()
}

#[test]
fn test_dlob_insert() {
    let mut dlob = DLOB::new();
    let user_account = new_unique();
    let taking_limit_order = Order {
        order_id: 1,
        slot: 1,
        market_index: 0,
        market_type: MarketType::Perp,
        ..Order::default()
    };
    let floating_limit_order = Order {
        order_id: 2,
        oracle_price_offset: 1,
        market_index: 0,
        market_type: MarketType::Perp,
        ..Order::default()
    };
    let resting_limit_order = Order {
        order_id: 3,
        slot: 3,
        market_index: 0,
        market_type: MarketType::Perp,
        ..Order::default()
    };
    let market_order = Order {
        order_id: 4,
        slot: 4,
        market_index: 0,
        market_type: MarketType::Perp,
        ..Order::default()
    };
    let trigger_order = Order {
        order_id: 5,
        slot: 5,
        market_index: 0,
        market_type: MarketType::Perp,
        ..Order::default()
    };

    dlob.insert_order(&taking_limit_order, user_account, 1);
    dlob.insert_order(&floating_limit_order, user_account, 0);
    dlob.insert_order(&resting_limit_order, user_account, 3);
    dlob.insert_order(&market_order, user_account, 4);
    dlob.insert_order(&trigger_order, user_account, 5);

    assert!(dlob.get_order(1, user_account).is_some());
    assert!(dlob.get_order(2, user_account).is_some());
    assert!(dlob.get_order(3, user_account).is_some());
    assert!(dlob.get_order(4, user_account).is_some());
    assert!(dlob.get_order(5, user_account).is_some());
}

#[test]
fn test_dlob_ordering() {
    let mut dlob = DLOB::new();

    let user_account = new_unique();
    let order_1 = Order {
        order_id: 1,
        slot: 1,
        market_index: 0,
        direction: PositionDirection::Long,
        market_type: MarketType::Perp,
        auction_duration: 1,
        ..Order::default()
    };
    let order_2 = Order {
        order_id: 2,
        slot: 2,
        market_index: 0,
        direction: PositionDirection::Long,
        market_type: MarketType::Perp,
        auction_duration: 1,
        ..Order::default()
    };
    let order_3 = Order {
        order_id: 3,
        slot: 3,
        market_index: 0,
        direction: PositionDirection::Long,
        market_type: MarketType::Perp,
        auction_duration: 1,
        ..Order::default()
    };
    let order_4 = Order {
        order_id: 4,
        slot: 4,
        market_index: 0,
        direction: PositionDirection::Long,
        market_type: MarketType::Perp,
        auction_duration: 1,
        ..Order::default()
    };
    let order_5 = Order {
        order_id: 5,
        slot: 5,
        market_index: 0,
        direction: PositionDirection::Long,
        market_type: MarketType::Perp,
        auction_duration: 1,
        ..Order::default()
    };

    dlob.insert_order(&order_1, user_account, 1);
    dlob.insert_order(&order_2, user_account, 2);
    dlob.insert_order(&order_3, user_account, 3);
    dlob.insert_order(&order_4, user_account, 4);
    dlob.insert_order(&order_5, user_account, 5);

    assert!(dlob.get_order(1, user_account).is_some());
    assert!(dlob.get_order(2, user_account).is_some());
    assert!(dlob.get_order(3, user_account).is_some());
    assert!(dlob.get_order(4, user_account).is_some());
    assert!(dlob.get_order(5, user_account).is_some());

    let best_orders =
        dlob.get_best_orders(MarketType::Perp, SubType::Bid, NodeType::TakingLimit, 0);

    assert_eq!(best_orders[0].get_order().slot, 1);
    assert_eq!(best_orders[1].get_order().slot, 2);
    assert_eq!(best_orders[2].get_order().slot, 3);
    assert_eq!(best_orders[3].get_order().slot, 4);
    assert_eq!(best_orders[4].get_order().slot, 5);
}

#[test]
fn test_update_resting_limit_orders() {
    let mut dlob = DLOB::new();

    let user_account = new_unique();
    let order_1 = Order {
        order_id: 1,
        slot: 1,
        market_index: 0,
        direction: PositionDirection::Long,
        market_type: MarketType::Perp,
        auction_duration: 1,
        ..Order::default()
    };

    dlob.insert_order(&order_1, user_account, 1);

    let markets_for_market_type = dlob.exchange().perp.clone();
    let market = markets_for_market_type.get(0).unwrap();

    assert_eq!(market.taking_limit_orders.bids.len(), 1);

    let slot = 5;

    dlob.update_resting_limit_orders(slot);

    let markets_for_market_type = dlob.exchange().perp.clone();
    let market = markets_for_market_type.get(0).unwrap();

    assert_eq!(market.taking_limit_orders.bids.len(), 0);
    assert_eq!(market.resting_limit_orders.bids.len(), 1);
}

#[test]
fn test_get_resting_limit_asks() {
    let mut dlob = DLOB::new();

    let v_ask = 15;
    let v_bid = 10;

    let oracle_price_data = OraclePriceData {
        price: (v_bid + v_ask) / 2,
        confidence: 1,
        delay: 0,
        has_sufficient_number_of_data_points: true,
    };

    let user_account = new_unique();
    let order_1 = Order {
        order_id: 1,
        slot: 1,
        market_index: 0,
        direction: PositionDirection::Short,
        market_type: MarketType::Perp,
        order_type: OrderType::Limit,
        auction_duration: 10,
        price: 11 * PRICE_PRECISION_U64,
        ..Order::default()
    };

    let order_2 = Order {
        order_id: 2,
        slot: 11,
        market_index: 0,
        direction: PositionDirection::Short,
        market_type: MarketType::Perp,
        order_type: OrderType::Limit,
        auction_duration: 10,
        price: 12 * PRICE_PRECISION_U64,
        ..Order::default()
    };

    let order_3 = Order {
        order_id: 3,
        slot: 21,
        market_index: 0,
        direction: PositionDirection::Short,
        market_type: MarketType::Perp,
        order_type: OrderType::Limit,
        auction_duration: 10,
        price: 13 * PRICE_PRECISION_U64,
        ..Order::default()
    };

    dlob.insert_order(&order_1, user_account, 1);
    dlob.insert_order(&order_2, user_account, 11);
    dlob.insert_order(&order_3, user_account, 21);

    let mut slot = 1;

    println!("expecting 0");
    let resting_limit_asks =
        dlob.get_resting_limit_asks(slot, MarketType::Perp, 0, oracle_price_data);

    assert_eq!(resting_limit_asks.len(), 0);

    slot += 11;

    println!("expecting 1");
    let resting_limit_asks =
        dlob.get_resting_limit_asks(slot, MarketType::Perp, 0, oracle_price_data);

    assert_eq!(resting_limit_asks.len(), 1);
    assert_eq!(resting_limit_asks[0].get_order().order_id, 1);

    slot += 11;

    println!("expecting 2");
    let resting_limit_asks =
        dlob.get_resting_limit_asks(slot, MarketType::Perp, 0, oracle_price_data);

    assert_eq!(resting_limit_asks.len(), 2);
    assert_eq!(resting_limit_asks[0].get_order().order_id, 1);
    assert_eq!(resting_limit_asks[1].get_order().order_id, 2);

    slot += 11;

    println!("expecting 3");
    let resting_limit_asks =
        dlob.get_resting_limit_asks(slot, MarketType::Perp, 0, oracle_price_data);

    assert_eq!(resting_limit_asks.len(), 3);
    assert_eq!(resting_limit_asks[0].get_order().order_id, 1);
    assert_eq!(resting_limit_asks[1].get_order().order_id, 2);
    assert_eq!(resting_limit_asks[2].get_order().order_id, 3);
}

#[test]
fn test_get_resting_limit_bids() {
    let mut dlob = DLOB::new();

    let v_ask = 15;
    let v_bid = 10;

    let oracle_price_data = OraclePriceData {
        price: (v_bid + v_ask) / 2,
        confidence: 1,
        delay: 0,
        has_sufficient_number_of_data_points: true,
    };

    let user_account = new_unique();
    let order_1 = Order {
        order_id: 1,
        slot: 1,
        market_index: 0,
        direction: PositionDirection::Long,
        market_type: MarketType::Perp,
        order_type: OrderType::Limit,
        auction_duration: 10,
        price: 11,
        ..Order::default()
    };

    let order_2 = Order {
        order_id: 2,
        slot: 11,
        market_index: 0,
        direction: PositionDirection::Long,
        market_type: MarketType::Perp,
        order_type: OrderType::Limit,
        auction_duration: 10,
        price: 12,
        ..Order::default()
    };

    let order_3 = Order {
        order_id: 3,
        slot: 21,
        market_index: 0,
        direction: PositionDirection::Long,
        market_type: MarketType::Perp,
        order_type: OrderType::Limit,
        auction_duration: 10,
        price: 13,
        ..Order::default()
    };

    dlob.insert_order(&order_1, user_account, 1);
    dlob.insert_order(&order_2, user_account, 11);
    dlob.insert_order(&order_3, user_account, 21);

    let mut slot = 1;

    println!("expecting 0");
    let resting_limit_bids =
        dlob.get_resting_limit_bids(slot, MarketType::Perp, 0, oracle_price_data);

    assert_eq!(resting_limit_bids.len(), 0);

    slot += 11;

    println!("expecting 1");
    let resting_limit_bids =
        dlob.get_resting_limit_bids(slot, MarketType::Perp, 0, oracle_price_data);

    assert_eq!(resting_limit_bids.len(), 1);
    assert_eq!(resting_limit_bids[0].get_order().order_id, 1);

    slot += 11;

    println!("expecting 2");
    let resting_limit_bids =
        dlob.get_resting_limit_bids(slot, MarketType::Perp, 0, oracle_price_data);

    assert_eq!(resting_limit_bids.len(), 2);
    assert_eq!(resting_limit_bids[0].get_order().order_id, 2);
    assert_eq!(resting_limit_bids[1].get_order().order_id, 1);

    slot += 11;

    println!("expecting 3");
    let resting_limit_bids =
        dlob.get_resting_limit_bids(slot, MarketType::Perp, 0, oracle_price_data);

    assert_eq!(resting_limit_bids.len(), 3);
    assert_eq!(resting_limit_bids[0].get_order().order_id, 3);
    assert_eq!(resting_limit_bids[1].get_order().order_id, 2);
    assert_eq!(resting_limit_bids[2].get_order().order_id, 1);
}

fn limit(order_id: u32, direction: PositionDirection, price: u64) -> Order {
    Order {
        order_id,
        slot: 1,
        price,
        direction,
        market_type: MarketType::Perp,
        order_type: OrderType::Limit,
        base_asset_amount: 100,
        ..Order::default()
    }
}

#[test]
fn signature_is_number_dash_address() {
    let system = Pubkey { bytes: [0; 32] };
    assert_eq!(
        get_order_signature(0, system),
        "0-11111111111111111111111111111111"
    );
    assert_eq!(
        get_order_signature(4294967295, system),
        "4294967295-11111111111111111111111111111111"
    );
    let mut bytes = [0u8; 32];
    bytes[31] = 1;
    assert_eq!(
        get_order_signature(7, Pubkey { bytes }),
        "7-11111111111111111111111111111112"
    );
}

#[test]
fn signatures_tell_orders_and_accounts_apart() {
    let a = new_unique();
    let b = new_unique();
    assert_ne!(get_order_signature(1, a), get_order_signature(1, b));
    assert_ne!(get_order_signature(1, a), get_order_signature(11, a));
    assert_eq!(get_order_signature(1, a), get_order_signature(1, a));
}

#[test]
fn address_reads_back_from_its_text() {
    let key = new_unique();
    let text = key.to_text();
    assert_eq!(text, solana_sdk::pubkey::Pubkey::from(key.bytes).to_string());
    assert!(Pubkey::from_text(&text) == Some(key));
    assert!(Pubkey::from_text("not an address").is_none());
    assert!(Pubkey::from_text("").is_none());
    assert!(Pubkey::from_text("0OIl").is_none());
}

#[test]
fn new_book_is_empty() {
    let dlob = DLOB::default();
    assert_eq!(dlob.size(), (0, 0));
    assert_eq!(dlob.checked_size(), Some((0, 0)));
    assert!(dlob.get_order(1, new_unique()).is_none());
    assert!(dlob.exchange().perp.keys().is_empty());
    assert!(dlob.exchange().spot.get(3).is_none());
}

#[test]
fn inserted_order_is_read_back() {
    let mut dlob = DLOB::new();
    let user = new_unique();
    let order = limit(9, PositionDirection::Short, 42);
    dlob.insert_order(&order, user, 5);
    assert_eq!(dlob.get_order(9, user), Some(order));
    assert_eq!(dlob.get_order(8, user), None);
    assert_eq!(dlob.get_order(9, new_unique()), None);
}

#[test]
fn inserting_again_takes_the_place_of_the_order() {
    let mut dlob = DLOB::new();
    let user = new_unique();
    dlob.insert_order(&limit(1, PositionDirection::Long, 10), user, 5);
    dlob.insert_order(&limit(2, PositionDirection::Long, 20), user, 5);
    assert_eq!(dlob.size(), (2, 0));
    let changed = limit(1, PositionDirection::Long, 30);
    dlob.insert_order(&changed, user, 5);
    assert_eq!(dlob.size(), (2, 0));
    assert_eq!(dlob.get_order(1, user), Some(changed));
    let bids = dlob.get_best_orders(MarketType::Perp, SubType::Bid, NodeType::RestingLimit, 0);
    assert_eq!(ids(&bids), vec![1, 2]);
}

#[test]
fn size_counts_each_kind_of_market() {
    let mut dlob = DLOB::new();
    let user = new_unique();
    for index in 0..3u16 {
        let order = Order {
            market_index: index * 1000,
            ..limit(index as u32, PositionDirection::Long, 10)
        };
        dlob.insert_order(&order, user, 5);
    }
    let spot = Order {
        market_type: MarketType::Spot,
        market_index: 65535,
        ..limit(7, PositionDirection::Short, 10)
    };
    dlob.insert_order(&spot, user, 5);
    assert_eq!(dlob.size(), (3, 1));
    assert_eq!(dlob.checked_size(), Some((3, 1)));
    assert_eq!(dlob.get_order(7, user), Some(spot));
    assert_eq!(dlob.exchange().spot.keys(), vec![65535]);
    let mut keys = dlob.exchange().perp.keys();
    keys.sort();
    assert_eq!(keys, vec![0, 1000, 2000]);
}

#[test]
fn clear_removes_every_order() {
    let mut dlob = DLOB::new();
    let user = new_unique();
    dlob.insert_order(&limit(1, PositionDirection::Long, 10), user, 5);
    dlob.update_resting_limit_orders(100);
    dlob.clear();
    assert_eq!(dlob.size(), (0, 0));
    assert!(dlob.get_order(1, user).is_none());
    // The book can be brought to an early slot again.
    let taking = Order {
        auction_duration: 2,
        ..limit(2, PositionDirection::Long, 10)
    };
    dlob.insert_order(&taking, user, 1);
    dlob.update_resting_limit_orders(10);
    let market = dlob.exchange().perp.get(0).unwrap();
    assert_eq!(market.resting_limit_orders.bids.len(), 1);
}

#[test]
fn orders_of_a_copy_are_apart() {
    let mut dlob = DLOB::new();
    let user = new_unique();
    let order = limit(1, PositionDirection::Long, 10);
    dlob.insert_order(&order, user, 5);
    let mut copy = dlob.clone();
    dlob.insert_order(&limit(2, PositionDirection::Long, 11), user, 5);
    copy.insert_order(&limit(3, PositionDirection::Long, 12), user, 5);
    assert_eq!(copy.size(), (2, 0));
    assert_eq!(copy.get_order(1, user), Some(order));
    assert_eq!(copy.get_order(2, user), None);
    assert_eq!(dlob.size(), (2, 0));
    assert_eq!(dlob.get_order(3, user), None);
}

#[test]
fn copies_have_one_watermark() {
    let taking_bids = |dlob: &DLOB| {
        dlob.exchange()
            .perp
            .get(0)
            .unwrap()
            .taking_limit_orders
            .bids
            .len()
    };
    let mut dlob = DLOB::new();
    let user = new_unique();
    let taking = Order {
        auction_duration: 2,
        ..limit(1, PositionDirection::Long, 10)
    };
    dlob.insert_order(&taking, user, 1);
    let mut copy = dlob.clone();
    let mut second = copy.clone();
    copy.update_resting_limit_orders(10);
    assert_eq!(taking_bids(&copy), 0);
    // The slot counts for every copy, so nothing happens here.
    dlob.update_resting_limit_orders(10);
    assert_eq!(taking_bids(&dlob), 1);
    assert!(second
        .get_resting_limit_bids(9, MarketType::Perp, 0, oracle(100))
        .is_empty());
    dlob.update_resting_limit_orders(11);
    assert_eq!(taking_bids(&dlob), 0);
    second.update_resting_limit_orders(11);
    assert_eq!(taking_bids(&second), 1);
    // Clearing one of them sets the watermark of all back.
    copy.clear();
    second.update_resting_limit_orders(5);
    assert_eq!(taking_bids(&second), 0);
}

#[test]
fn first_queue_in_turn_is_read() {
    let mut dlob = DLOB::new();
    let user = new_unique();
    let resting = limit(1, PositionDirection::Short, 10);
    let taking = Order {
        auction_duration: 100,
        ..limit(1, PositionDirection::Long, 20)
    };
    let market = Order {
        order_type: OrderType::Market,
        ..limit(1, PositionDirection::Long, 30)
    };
    dlob.insert_order(&market, user, 5);
    assert_eq!(dlob.get_order(1, user), Some(market));
    dlob.insert_order(&taking, user, 5);
    assert_eq!(dlob.get_order(1, user), Some(taking));
    dlob.insert_order(&resting, user, 5);
    assert_eq!(dlob.get_order(1, user), Some(resting));
    let bid = limit(1, PositionDirection::Long, 40);
    dlob.insert_order(&bid, user, 5);
    assert_eq!(dlob.get_order(1, user), Some(bid));
    // Perp markets come before spot markets.
    let spot = Order {
        market_type: MarketType::Spot,
        ..limit(1, PositionDirection::Long, 50)
    };
    dlob.insert_order(&spot, user, 5);
    assert_eq!(dlob.get_order(1, user), Some(bid));
}

#[test]
fn inserting_leaves_what_other_keys_give() {
    let mut dlob = DLOB::new();
    let a = new_unique();
    let b = new_unique();
    let first = limit(1, PositionDirection::Long, 10);
    dlob.insert_order(&first, a, 5);
    dlob.insert_order(&limit(1, PositionDirection::Long, 20), b, 5);
    dlob.insert_order(&limit(2, PositionDirection::Long, 30), a, 5);
    assert_eq!(dlob.get_order(1, a), Some(first));
    assert_eq!(dlob.get_order(2, b), None);
}

#[test]
fn orders_go_to_the_list_where_they_belong() {
    let mut dlob = DLOB::new();
    let user = new_unique();
    let resting = limit(1, PositionDirection::Long, 10);
    let taking = Order {
        auction_duration: 10,
        ..limit(2, PositionDirection::Long, 10)
    };
    let post_only = Order {
        post_only: true,
        ..limit(3, PositionDirection::Long, 10)
    };
    let floating = Order {
        oracle_price_offset: -5,
        ..limit(4, PositionDirection::Short, 0)
    };
    let market = Order {
        order_type: OrderType::Market,
        ..limit(5, PositionDirection::Short, 0)
    };
    let oracle_market = Order {
        order_type: OrderType::Oracle,
        ..limit(6, PositionDirection::Short, 0)
    };
    let above = Order {
        order_type: OrderType::TriggerMarket,
        trigger_condition: OrderTriggerCondition::Above,
        ..limit(7, PositionDirection::Short, 0)
    };
    let below = Order {
        order_type: OrderType::TriggerLimit,
        trigger_condition: OrderTriggerCondition::Below,
        ..limit(8, PositionDirection::Long, 5)
    };
    let triggered = Order {
        order_type: OrderType::TriggerMarket,
        trigger_condition: OrderTriggerCondition::TriggeredAbove,
        ..limit(9, PositionDirection::Short, 0)
    };
    for order in [
        resting,
        taking,
        post_only,
        floating,
        market,
        oracle_market,
        above,
        below,
        triggered,
    ] {
        dlob.insert_order(&order, user, 5);
    }
    let list = |side, list_type| {
        let mut found = ids(&dlob.get_best_orders(MarketType::Perp, side, list_type, 0));
        found.sort();
        found
    };
    assert_eq!(list(SubType::Bid, NodeType::RestingLimit), vec![1, 3]);
    assert_eq!(list(SubType::Bid, NodeType::TakingLimit), vec![2]);
    assert_eq!(list(SubType::Ask, NodeType::FloatingLimit), vec![4]);
    assert_eq!(list(SubType::Ask, NodeType::Market), vec![5, 6, 9]);
    assert_eq!(list(SubType::Bid, NodeType::Trigger), vec![7]);
    assert_eq!(list(SubType::Ask, NodeType::Trigger), vec![8]);
    assert!(list(SubType::Ask, NodeType::RestingLimit).is_empty());
}

#[test]
fn queues_come_with_the_best_first() {
    let mut dlob = DLOB::new();
    let user = new_unique();
    for (id, price) in [(1, 30), (2, 10), (3, 20), (4, 40), (5, 5)] {
        dlob.insert_order(&limit(id, PositionDirection::Long, price), user, 5);
        dlob.insert_order(&limit(id + 10, PositionDirection::Short, price), user, 5);
        let offset = price as i32 - 25;
        let floating = Order {
            oracle_price_offset: offset,
            ..limit(id + 20, PositionDirection::Long, 0)
        };
        dlob.insert_order(&floating, user, 5);
        let above = Order {
            order_type: OrderType::TriggerMarket,
            trigger_price: price,
            ..limit(id + 30, PositionDirection::Long, 0)
        };
        dlob.insert_order(&above, user, 5);
        let below = Order {
            trigger_condition: OrderTriggerCondition::Below,
            order_id: id + 40,
            ..above
        };
        dlob.insert_order(&below, user, 5);
    }
    let list = |side, list_type| ids(&dlob.get_best_orders(MarketType::Perp, side, list_type, 0));
    assert_eq!(list(SubType::Bid, NodeType::RestingLimit), vec![4, 1, 3, 2, 5]);
    assert_eq!(
        list(SubType::Ask, NodeType::RestingLimit),
        vec![15, 12, 13, 11, 14]
    );
    assert_eq!(
        list(SubType::Bid, NodeType::FloatingLimit),
        vec![24, 21, 23, 22, 25]
    );
    assert_eq!(list(SubType::Bid, NodeType::Trigger), vec![35, 32, 33, 31, 34]);
    assert_eq!(list(SubType::Ask, NodeType::Trigger), vec![44, 41, 43, 42, 45]);
}

#[test]
fn bringing_to_a_slot_twice_changes_nothing() {
    let mut dlob = DLOB::new();
    let user = new_unique();
    dlob.update_resting_limit_orders(20);
    let taking = Order {
        auction_duration: 2,
        ..limit(1, PositionDirection::Long, 10)
    };
    dlob.insert_order(&taking, user, 1);
    // The book has been brought to a later slot before.
    dlob.update_resting_limit_orders(20);
    dlob.update_resting_limit_orders(7);
    let market = dlob.exchange().perp.get(0).unwrap();
    assert_eq!(market.taking_limit_orders.bids.len(), 1);
    dlob.update_resting_limit_orders(21);
    let market = dlob.exchange().perp.get(0).unwrap();
    assert_eq!(market.taking_limit_orders.bids.len(), 0);
    assert_eq!(market.resting_limit_orders.bids.len(), 1);
}

#[test]
fn bringing_to_a_slot_loses_no_order() {
    let mut dlob = DLOB::new();
    let user = new_unique();
    for index in 0..4u16 {
        for duration in [2u8, 200] {
            let order = Order {
                market_index: index,
                auction_duration: duration,
                ..limit(index as u32 * 1000 + duration as u32, PositionDirection::Long, 10)
            };
            dlob.insert_order(&order, user, 1);
        }
    }
    dlob.update_resting_limit_orders(50);
    for index in 0..4u16 {
        assert!(dlob.get_order(index as u32 * 1000 + 2, user).is_some());
        assert!(dlob.get_order(index as u32 * 1000 + 200, user).is_some());
        let resting =
            dlob.get_best_orders(MarketType::Perp, SubType::Bid, NodeType::RestingLimit, index);
        assert_eq!(ids(&resting), vec![index as u32 * 1000 + 2]);
        let taking =
            dlob.get_best_orders(MarketType::Perp, SubType::Bid, NodeType::TakingLimit, index);
        assert!(ids(&taking).contains(&(index as u32 * 1000 + 200)));
    }
    // The orders that go on taking are carried from market to market.
    let mut counts: Vec<usize> = (0..4u16)
        .map(|index| {
            dlob.get_best_orders(MarketType::Perp, SubType::Bid, NodeType::TakingLimit, index)
                .len()
        })
        .collect();
    counts.sort();
    assert_eq!(counts, vec![1, 2, 3, 4]);
}

#[test]
fn makers_of_both_lists_are_sorted_by_price() {
    let mut dlob = DLOB::new();
    let user = new_unique();
    let floating = |id, direction, offset| Order {
        oracle_price_offset: offset,
        ..limit(id, direction, 0)
    };
    dlob.insert_order(&limit(1, PositionDirection::Short, 105), user, 5);
    dlob.insert_order(&floating(2, PositionDirection::Short, 3), user, 5);
    dlob.insert_order(&limit(3, PositionDirection::Short, 101), user, 5);
    dlob.insert_order(&limit(4, PositionDirection::Long, 90), user, 5);
    dlob.insert_order(&floating(5, PositionDirection::Long, -3), user, 5);
    dlob.insert_order(&floating(6, PositionDirection::Long, -20), user, 5);
    let asks = dlob.get_resting_limit_asks(5, MarketType::Perp, 0, oracle(100));
    assert_eq!(ids(&asks), vec![3, 2, 1]);
    let bids = dlob.get_resting_limit_bids(5, MarketType::Perp, 0, oracle(100));
    assert_eq!(ids(&bids), vec![5, 4, 6]);
    assert_eq!(bids[0].get_price(oracle(100), 5), 97);
}

#[test]
fn takers_come_with_the_latest_first() {
    let mut dlob = DLOB::new();
    let user = new_unique();
    for (id, slot) in [(1u32, 10u64), (2, 30), (3, 20)] {
        let taking = Order {
            slot,
            auction_duration: 100,
            ..limit(id, PositionDirection::Long, 10)
        };
        dlob.insert_order(&taking, user, 40);
        let market = Order {
            slot: slot + 5,
            order_type: OrderType::Market,
            order_id: id + 10,
            ..taking
        };
        dlob.insert_order(&market, user, 40);
    }
    let takers = dlob.get_taking_orders(40, MarketType::Perp, 0, SubType::Bid);
    assert_eq!(ids(&takers), vec![12, 2, 13, 3, 11, 1]);
    assert!(dlob
        .get_taking_orders(40, MarketType::Perp, 0, SubType::Ask)
        .is_empty());
}

#[test]
fn inserting_leaves_other_queues_alone() {
    let mut dlob = DLOB::new();
    let user = new_unique();
    dlob.insert_order(&limit(1, PositionDirection::Long, 10), user, 5);
    let elsewhere = Order {
        market_index: 1,
        ..limit(2, PositionDirection::Long, 20)
    };
    dlob.insert_order(&elsewhere, user, 5);
    dlob.insert_order(&limit(3, PositionDirection::Short, 30), user, 5);
    let bids = dlob.get_best_orders(MarketType::Perp, SubType::Bid, NodeType::RestingLimit, 0);
    assert_eq!(ids(&bids), vec![1]);
}
