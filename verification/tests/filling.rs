//! The search for orders to fill and to trigger.

use dlob::dlob::checked::NotReady;
use dlob::dlob::dlob::DLOB;
use dlob::dlob::matching::PriceTest;
use dlob::dlob::node::{Node, NodeToFill, SubType};
use dlob::dlob::search::FillSearch;
use dlob::dlob::utils::{determine_maker_and_taker, merge_and_deduplicate_nodes};
use dlob::pubkey::Pubkey;
use dlob::types::{
    FeeStructure, FeeTier, MarketType, OraclePriceData, Order, OrderStatus, OrderTriggerCondition,
    OrderType, PerpMarket, PositionDirection, SpotMarket, State, AMM_PAUSED, FILL_PAUSED,
};

fn account(n: u8) -> Pubkey {
    Pubkey { bytes: [n; 32] }
}

fn oracle(price: i64) -> OraclePriceData {
    OraclePriceData {
        price,
        confidence: 1,
        delay: 0,
        has_sufficient_number_of_data_points: true,
    }
}

fn state(exchange_status: u8) -> State {
    let fees = FeeStructure {
        fee_tiers: [FeeTier {
            maker_rebate_numerator: 10,
            maker_rebate_denominator: 100,
        }; 10],
    };
    State {
        exchange_status,
        perp_fee_structure: fees,
        spot_fee_structure: fees,
        min_perp_auction_duration: 10,
    }
}

fn perp() -> PerpMarket {
    PerpMarket {
        market_index: 0,
        fee_adjustment: 0,
        amm_fill_paused: false,
        fill_paused: false,
        too_much_drawdown: Some(false),
    }
}

fn spot() -> SpotMarket {
    SpotMarket {
        market_index: 0,
        fill_paused: false,
    }
}

fn limit(order_id: u32, direction: PositionDirection, price: u64, amount: u64) -> Order {
    Order {
        order_id,
        slot: 1,
        price,
        direction,
        status: OrderStatus::Open,
        market_type: MarketType::Perp,
        order_type: OrderType::Limit,
        base_asset_amount: amount,
        ..Order::default()
    }
}

fn bid(order_id: u32, price: u64, amount: u64) -> Order {
    limit(order_id, PositionDirection::Long, price, amount)
}

fn ask(order_id: u32, price: u64, amount: u64) -> Order {
    limit(order_id, PositionDirection::Short, price, amount)
}

fn node(order: Order, user_account: Pubkey) -> Node {
    Node {
        order,
        user_account,
    }
}

/// The number of each node to fill and the numbers of its makers.
fn ids(nodes: &[NodeToFill]) -> Vec<(u32, Vec<u32>)> {
    nodes
        .iter()
        .map(|n| {
            (
                n.node.order.order_id,
                n.maker_nodes.iter().map(|m| m.order.order_id).collect(),
            )
        })
        .collect()
}

#[test]
fn maker_and_taker_of_a_match() {
    let ask_node = node(ask(1, 10, 5), account(1));
    let bid_node = node(bid(2, 10, 5), account(2));
    let pair = |a: &Node, b: &Node| {
        determine_maker_and_taker(a, b).map(|(first, second)| {
            (first.order.order_id, second.order.order_id)
        })
    };
    assert_eq!(pair(&ask_node, &bid_node), Some((2, 1)));
    let late_ask = node(
        Order {
            auction_duration: 1,
            ..ask_node.order
        },
        account(1),
    );
    assert_eq!(pair(&late_ask, &bid_node), Some((1, 2)));
    let post_ask = node(
        Order {
            post_only: true,
            ..ask_node.order
        },
        account(1),
    );
    let post_bid = node(
        Order {
            post_only: true,
            ..bid_node.order
        },
        account(2),
    );
    assert_eq!(pair(&post_ask, &bid_node), Some((2, 1)));
    assert_eq!(pair(&ask_node, &post_bid), Some((1, 2)));
    assert_eq!(pair(&post_ask, &post_bid), None);
}

#[test]
fn merging_names_each_order_once() {
    let fill = |id: u32, user: u8, makers: Vec<u32>| NodeToFill {
        node: node(ask(id, 10, 5), account(user)),
        maker_nodes: makers
            .into_iter()
            .map(|m| node(bid(m, 10, 5), account(9)))
            .collect(),
    };
    let a = vec![fill(1, 1, vec![10]), fill(2, 1, vec![]), fill(1, 1, vec![11])];
    let b = vec![fill(2, 1, vec![12]), fill(1, 2, vec![13]), fill(1, 1, vec![10])];
    let merged = merge_and_deduplicate_nodes(a, b);
    assert_eq!(
        ids(&merged),
        vec![(1, vec![10, 11, 10]), (2, vec![12]), (1, vec![13])]
    );
    assert!(merge_and_deduplicate_nodes(vec![], vec![]).is_empty());
}

#[test]
fn crossing_resting_orders_are_matched_and_filled() {
    let mut dlob = DLOB::new();
    dlob.insert_order(&ask(1, 100, 10), account(1), 5);
    dlob.insert_order(&bid(2, 105, 4), account(2), 5);
    dlob.insert_order(&bid(3, 103, 10), account(3), 5);
    dlob.insert_order(&bid(4, 101, 10), account(4), 5);
    dlob.insert_order(&bid(5, 99, 10), account(5), 5);
    let found = dlob.find_crossing_resting_limit_orders(&perp(), 5, oracle(100));
    // Both auctions end together, so the ask is second of each pair.
    assert_eq!(ids(&found), vec![(1, vec![2]), (1, vec![3])]);
    assert_eq!(found[0].node.order.base_asset_amount_filled, 0);
    assert_eq!(
        dlob.get_order(2, account(2)).unwrap().base_asset_amount_filled,
        4
    );
    assert_eq!(
        dlob.get_order(3, account(3)).unwrap().base_asset_amount_filled,
        10
    );
    assert_eq!(
        dlob.get_order(4, account(4)).unwrap().base_asset_amount_filled,
        0
    );
    assert_eq!(
        dlob.get_order(1, account(1)).unwrap().base_asset_amount_filled,
        10
    );
}

#[test]
fn orders_of_one_account_do_not_cross() {
    let mut dlob = DLOB::new();
    dlob.insert_order(&ask(1, 100, 10), account(1), 5);
    dlob.insert_order(&bid(2, 105, 10), account(1), 5);
    assert!(dlob
        .find_crossing_resting_limit_orders(&perp(), 5, oracle(100))
        .is_empty());
    dlob.insert_order(&bid(3, 102, 10), account(2), 5);
    let found = dlob.find_crossing_resting_limit_orders(&perp(), 5, oracle(100));
    assert_eq!(ids(&found), vec![(1, vec![3])]);
}

#[test]
fn two_post_only_orders_do_not_cross() {
    let mut dlob = DLOB::new();
    let post = |order: Order| Order {
        post_only: true,
        ..order
    };
    dlob.insert_order(&post(ask(1, 100, 10)), account(1), 5);
    dlob.insert_order(&post(bid(2, 105, 10)), account(2), 5);
    dlob.insert_order(&bid(3, 104, 3), account(3), 5);
    let found = dlob.find_crossing_resting_limit_orders(&perp(), 5, oracle(100));
    assert_eq!(ids(&found), vec![(1, vec![3])]);
}

#[test]
fn takers_are_matched_with_makers() {
    let mut dlob = DLOB::new();
    dlob.insert_order(&bid(1, 100, 5), account(1), 5);
    dlob.insert_order(&bid(2, 98, 5), account(2), 5);
    dlob.insert_order(&bid(3, 96, 50), account(3), 5);
    let taker = Order {
        order_type: OrderType::Market,
        price: 97,
        ..ask(4, 97, 8)
    };
    dlob.insert_order(&taker, account(4), 5);
    let takers = dlob.get_taking_orders(5, MarketType::Perp, 0, SubType::Ask);
    let found = dlob.find_taking_nodes_crossing_maker_nodes(
        &perp(),
        5,
        oracle(100),
        takers,
        SubType::Ask,
        None,
    );
    assert_eq!(ids(&found), vec![(4, vec![1]), (4, vec![2])]);
    assert_eq!(
        dlob.get_order(1, account(1)).unwrap().base_asset_amount_filled,
        5
    );
    assert_eq!(
        dlob.get_order(2, account(2)).unwrap().base_asset_amount_filled,
        5
    );
    assert_eq!(
        dlob.get_order(4, account(4)).unwrap().base_asset_amount_filled,
        5
    );
    assert_eq!(
        dlob.get_order(3, account(3)).unwrap().base_asset_amount_filled,
        0
    );
    let none = dlob.find_taking_nodes_crossing_maker_nodes(
        &perp(),
        5,
        oracle(100),
        vec![],
        SubType::Ask,
        None,
    );
    assert!(none.is_empty());
}

#[test]
fn spot_takers_pass_over_makers_worse_than_the_fallback() {
    let spot_order = |order: Order| Order {
        market_type: MarketType::Spot,
        ..order
    };
    let build = || {
        let mut dlob = DLOB::new();
        dlob.insert_order(&spot_order(ask(1, 100, 5)), account(1), 5);
        dlob.insert_order(&spot_order(ask(2, 102, 5)), account(2), 5);
        let taker = Order {
            order_type: OrderType::Market,
            ..spot_order(bid(3, 110, 50))
        };
        dlob.insert_order(&taker, account(3), 5);
        dlob
    };
    let find = |fallback: Option<u64>| {
        let mut dlob = build();
        let takers = dlob.get_taking_orders(5, MarketType::Spot, 0, SubType::Bid);
        ids(&dlob.find_taking_nodes_crossing_maker_nodes(
            &spot(),
            5,
            oracle(100),
            takers,
            SubType::Bid,
            fallback,
        ))
    };
    assert_eq!(find(None), vec![(3, vec![1]), (3, vec![2])]);
    assert_eq!(find(Some(101)), vec![(3, vec![1])]);
    assert_eq!(find(Some(99)), vec![]);
}

#[test]
fn fallback_fills_what_it_crosses() {
    let dlob = DLOB::new();
    let nodes = || {
        vec![
            node(ask(1, 90, 5), account(1)),
            node(ask(2, 100, 5), account(1)),
            node(
                Order {
                    slot: 30,
                    ..ask(3, 80, 5)
                },
                account(1),
            ),
            node(
                Order {
                    post_only: true,
                    ..ask(4, 70, 5)
                },
                account(1),
            ),
        ]
    };
    let find = |market_type, test, min| {
        let found = dlob.find_nodes_crossing_fallback_liquidity(
            market_type,
            35,
            oracle(100),
            nodes(),
            test,
            min,
        );
        assert!(found.iter().all(|n| n.maker_nodes.is_empty()));
        found
            .iter()
            .map(|n| n.node.order.order_id)
            .collect::<Vec<u32>>()
    };
    assert_eq!(find(MarketType::Perp, PriceTest::Below(100), 10), vec![1, 4]);
    assert_eq!(find(MarketType::Perp, PriceTest::AtMost(100), 10), vec![1, 2, 4]);
    assert_eq!(find(MarketType::Perp, PriceTest::AtMost(100), 0), vec![1, 2, 3, 4]);
    assert_eq!(find(MarketType::Perp, PriceTest::Above(89), 10), vec![1, 2]);
    assert_eq!(find(MarketType::Spot, PriceTest::Below(100), 10), vec![1, 3]);
}

#[test]
fn expired_orders_are_found_bids_first() {
    let mut dlob = DLOB::new();
    let until = |order: Order, max_ts: i64| Order { max_ts, ..order };
    dlob.insert_order(&until(ask(1, 10, 5), 100), account(1), 5);
    dlob.insert_order(&until(bid(2, 10, 5), 100), account(1), 5);
    dlob.insert_order(&until(bid(3, 10, 5), 200), account(1), 5);
    let market = Order {
        order_type: OrderType::Market,
        ..until(bid(4, 10, 5), 110)
    };
    dlob.insert_order(&market, account(1), 5);
    let found = dlob.find_expired_orders_to_fill(0, MarketType::Perp, 116);
    assert_eq!(ids(&found), vec![(2, vec![]), (4, vec![]), (1, vec![])]);
    assert!(dlob
        .find_expired_orders_to_fill(0, MarketType::Perp, 100)
        .is_empty());
}

#[test]
fn resting_orders_meet_the_fallback_less_the_rebate() {
    let build = || {
        let mut dlob = DLOB::new();
        dlob.insert_order(&ask(1, 89, 5), account(1), 5);
        dlob.insert_order(&ask(2, 90, 5), account(2), 5);
        dlob.insert_order(&bid(3, 80, 5), account(3), 5);
        dlob.insert_order(&bid(4, 72, 5), account(4), 5);
        dlob
    };
    let mut dlob = build();
    let found = dlob.find_resting_orders_to_fill(
        &perp(),
        50,
        oracle(100),
        false,
        10,
        10,
        100,
        Some(100),
        Some(80),
    );
    // Asks below 100 - 10, bids above 80 - 8.
    assert_eq!(ids(&found), vec![(1, vec![]), (3, vec![])]);
    let mut paused = build();
    assert!(paused
        .find_resting_orders_to_fill(
            &perp(),
            50,
            oracle(100),
            true,
            10,
            10,
            100,
            Some(100),
            Some(80),
        )
        .is_empty());
}

#[test]
fn taking_orders_meet_makers_and_then_the_fallback() {
    let mut dlob = DLOB::new();
    let market = |order: Order| Order {
        order_type: OrderType::Market,
        ..order
    };
    dlob.insert_order(&bid(1, 100, 5), account(1), 5);
    dlob.insert_order(&market(ask(2, 95, 5)), account(2), 5);
    dlob.insert_order(&market(bid(3, 120, 5)), account(3), 5);
    let found = dlob.find_taking_orders_to_fill(
        &perp(),
        50,
        oracle(100),
        false,
        10,
        Some(95),
        Some(110),
    );
    assert_eq!(
        ids(&found),
        vec![(2, vec![1]), (2, vec![]), (3, vec![])]
    );
    let none = dlob.find_taking_orders_to_fill(
        &perp(),
        50,
        oracle(100),
        false,
        10,
        Some(94),
        Some(120),
    );
    // The ask was filled by the match before, and its maker has nothing left to
    // give but is still matched.
    assert_eq!(ids(&none), vec![(2, vec![1])]);
}

#[test]
fn search_names_resting_and_taking_orders_once_and_then_the_expired() {
    let mut dlob = DLOB::new();
    dlob.insert_order(&ask(1, 80, 10), account(1), 5);
    dlob.insert_order(&bid(2, 85, 4), account(2), 5);
    let market = Order {
        order_type: OrderType::Market,
        ..bid(3, 120, 5)
    };
    dlob.insert_order(&market, account(3), 5);
    let old = Order {
        max_ts: 7,
        ..bid(4, 10, 5)
    };
    dlob.insert_order(&old, account(4), 5);
    let found = dlob
        .find_nodes_to_fill(
            &perp(),
            Some(100),
            Some(110),
            50,
            1000,
            oracle(100),
            state(0),
        )
        .unwrap();
    assert_eq!(
        ids(&found),
        vec![(1, vec![2]), (3, vec![1]), (4, vec![])]
    );
    // The second fill of the ask starts from what the book said before.
    let filled = dlob.get_order(1, account(1)).unwrap();
    assert_eq!(filled.base_asset_amount_filled, 9);
}

#[test]
fn search_keeps_every_order_within_its_size() {
    let mut dlob = DLOB::new();
    for i in 0..6u8 {
        dlob.insert_order(&ask(i as u32, 90 + i as u64, 3 + i as u64), account(i), 5);
        dlob.insert_order(
            &bid(i as u32 + 10, 100 - i as u64, 7 - i as u64),
            account(i + 10),
            5,
        );
    }
    let before = dlob.size();
    dlob.find_nodes_to_fill(&perp(), None, None, 50, 0, oracle(100), state(0))
        .unwrap();
    assert_eq!(dlob.size(), before);
    for i in 0..6u8 {
        for (id, user) in [(i as u32, i), (i as u32 + 10, i + 10)] {
            let order = dlob.get_order(id, account(user)).unwrap();
            assert!(order.base_asset_amount_filled <= order.base_asset_amount);
        }
    }
}

#[test]
fn no_search_where_fills_are_paused() {
    let mut dlob = DLOB::new();
    assert!(dlob
        .find_nodes_to_fill(&perp(), None, None, 50, 0, oracle(100), state(FILL_PAUSED))
        .is_none());
    let paused = SpotMarket {
        fill_paused: true,
        ..spot()
    };
    assert!(dlob
        .find_nodes_to_fill(&paused, None, None, 50, 0, oracle(100), state(0))
        .is_none());
}

#[test]
fn paused_amm_gives_no_fallback() {
    let mut dlob = DLOB::new();
    dlob.insert_order(&ask(1, 80, 10), account(1), 5);
    let found = dlob
        .find_nodes_to_fill(
            &perp(),
            Some(100),
            Some(110),
            50,
            0,
            oracle(100),
            state(AMM_PAUSED),
        )
        .unwrap();
    assert!(found.is_empty());
    let live = dlob
        .find_nodes_to_fill(&perp(), Some(100), Some(110), 50, 0, oracle(100), state(0))
        .unwrap();
    assert_eq!(ids(&live), vec![(1, vec![])]);
}

#[test]
fn orders_without_a_price_are_no_obstacle_where_none_is_compared() {
    let mut dlob = DLOB::new();
    let market = |order: Order| Order {
        order_type: OrderType::Market,
        ..order
    };
    dlob.insert_order(&market(bid(1, 0, 5)), account(1), 5);
    dlob.insert_order(&market(ask(2, 0, 5)), account(2), 5);
    let found = dlob
        .find_nodes_to_fill(&perp(), None, None, 50, 0, oracle(100), state(0))
        .unwrap();
    assert!(found.is_empty());
}

#[test]
fn price_triggers_what_waits_for_it() {
    let mut dlob = DLOB::new();
    let trigger = |id: u32, price: u64, condition: OrderTriggerCondition| Order {
        order_type: OrderType::TriggerMarket,
        trigger_price: price,
        trigger_condition: condition,
        ..bid(id, 0, 5)
    };
    for (id, price) in [(1, 90), (2, 110), (3, 99), (4, 100)] {
        dlob.insert_order(
            &trigger(id, price, OrderTriggerCondition::Above),
            account(1),
            5,
        );
        dlob.insert_order(
            &trigger(id + 10, price, OrderTriggerCondition::Below),
            account(1),
            5,
        );
    }
    let find = |price, status| {
        dlob.find_nodes_to_trigger(0, MarketType::Perp, price, state(status))
            .iter()
            .map(|n| n.node.order.order_id)
            .collect::<Vec<u32>>()
    };
    assert_eq!(find(100, 0), vec![1, 3, 12]);
    assert_eq!(find(1000, 0), vec![1, 3, 4, 2]);
    assert_eq!(find(1, 0), vec![12, 14, 13, 11]);
    assert!(find(100, AMM_PAUSED).is_empty());
}

#[test]
fn sizes_count_only_where_orders_match() {
    let overfilled = |order: Order| Order {
        base_asset_amount_filled: order.base_asset_amount + 7,
        ..order
    };
    let mut dlob = DLOB::new();
    dlob.insert_order(&overfilled(ask(1, 200, 5)), account(1), 5);
    dlob.insert_order(&overfilled(bid(2, 100, 5)), account(2), 5);
    dlob.insert_order(&ask(3, 150, 5), account(3), 5);
    let market = Order {
        order_type: OrderType::Market,
        ..overfilled(bid(4, 120, 5))
    };
    dlob.insert_order(&market, account(4), 5);
    assert!(dlob
        .find_crossing_resting_limit_orders(&perp(), 5, oracle(100))
        .is_empty());
    let found = dlob
        .find_nodes_to_fill(&perp(), None, None, 50, 0, oracle(100), state(0))
        .unwrap();
    assert!(found.is_empty());
    assert_eq!(
        dlob.get_order(1, account(1)).unwrap().base_asset_amount_filled,
        12
    );
    // Those that match are still found and filled.
    let taking = Order {
        order_type: OrderType::Market,
        ..bid(6, 110, 5)
    };
    let mut other = DLOB::new();
    other.insert_order(&overfilled(ask(1, 200, 5)), account(1), 5);
    other.insert_order(&ask(5, 100, 5), account(5), 5);
    other.insert_order(&taking, account(6), 5);
    let matched = other
        .find_nodes_to_fill(&perp(), None, None, 50, 0, oracle(100), state(0))
        .unwrap();
    assert_eq!(ids(&matched), vec![(6, vec![5])]);
}

#[test]
fn search_of_a_copy_goes_by_the_common_watermark() {
    let mut dlob = DLOB::new();
    let waiting = Order {
        auction_duration: 2,
        ..ask(1, 90, 5)
    };
    dlob.insert_order(&waiting, account(1), 1);
    dlob.insert_order(&bid(2, 100, 5), account(2), 1);
    let mut copy = dlob.clone();
    let found = copy.find_crossing_resting_limit_orders(&perp(), 10, oracle(100));
    assert_eq!(ids(&found), vec![(2, vec![1])]);
    // The ask of the other book has not come to rest, and does not in that slot.
    assert!(dlob
        .find_crossing_resting_limit_orders(&perp(), 10, oracle(100))
        .is_empty());
    let later = dlob.find_crossing_resting_limit_orders(&perp(), 11, oracle(100));
    assert_eq!(ids(&later), vec![(2, vec![1])]);
}

fn crossing_book() -> DLOB {
    let mut dlob = DLOB::new();
    dlob.insert_order(&ask(1, 80, 10), account(1), 5);
    dlob.insert_order(&bid(2, 85, 4), account(2), 5);
    let market = Order {
        order_type: OrderType::Market,
        ..bid(3, 120, 5)
    };
    dlob.insert_order(&market, account(3), 5);
    let old = Order {
        max_ts: 7,
        ..bid(4, 10, 5)
    };
    dlob.insert_order(&old, account(4), 5);
    dlob
}

fn try_search(
    dlob: &mut DLOB,
    market: &PerpMarket,
    fallback_bid: Option<u64>,
    state: State,
) -> Result<Option<Vec<(u32, Vec<u32>)>>, NotReady> {
    dlob.try_find_nodes_to_fill(market, fallback_bid, None, 50, 1000, oracle(100), state)
        .map(|found| found.map(|nodes| ids(&nodes)))
}

#[test]
fn tested_search_finds_what_the_search_finds() {
    let mut dlob = crossing_book();
    let found = dlob
        .try_find_nodes_to_fill(
            &perp(),
            Some(100),
            Some(110),
            50,
            1000,
            oracle(100),
            state(0),
        )
        .unwrap()
        .unwrap();
    assert_eq!(
        ids(&found),
        vec![(1, vec![2]), (3, vec![1]), (4, vec![])]
    );
    assert_eq!(
        dlob.get_order(1, account(1)).unwrap().base_asset_amount_filled,
        9
    );
    assert_eq!(
        try_search(&mut crossing_book(), &perp(), None, state(FILL_PAUSED)),
        Ok(None)
    );
}

#[test]
fn tested_search_needs_a_market_and_its_status() {
    assert_eq!(
        try_search(&mut DLOB::new(), &perp(), None, state(0)),
        Err(NotReady)
    );
    let unknown = PerpMarket {
        too_much_drawdown: None,
        ..perp()
    };
    assert_eq!(
        try_search(&mut crossing_book(), &unknown, None, state(0)),
        Err(NotReady)
    );
    // A paused AMM is paused whatever the drawdown.
    assert_eq!(
        try_search(&mut crossing_book(), &unknown, None, state(AMM_PAUSED)),
        Ok(Some(vec![(1, vec![2]), (3, vec![1]), (4, vec![])]))
    );
}

#[test]
fn tested_search_refuses_what_cannot_be_computed() {
    // A rebate without a denominator, and one above the price.
    for (numerator, denominator) in [(10, 0), (200, 100)] {
        let mut rebate = state(0);
        rebate.perp_fee_structure.fee_tiers[0] = FeeTier {
            maker_rebate_numerator: numerator,
            maker_rebate_denominator: denominator,
        };
        assert_eq!(
            try_search(&mut crossing_book(), &perp(), Some(1), rebate),
            Err(NotReady)
        );
        assert!(try_search(&mut crossing_book(), &perp(), None, rebate).is_ok());
    }
    assert_eq!(
        try_search(&mut crossing_book(), &perp(), Some(u64::MAX), state(0)),
        Err(NotReady)
    );
    // An expiry beyond the last time there is.
    let mut endless = crossing_book();
    let order = Order {
        max_ts: i64::MAX,
        ..bid(5, 10, 5)
    };
    endless.insert_order(&order, account(5), 5);
    assert_eq!(
        try_search(&mut endless, &perp(), None, state(0)),
        Err(NotReady)
    );
    // The end of an auction beyond the last slot there is.
    let mut far = crossing_book();
    let order = Order {
        slot: u64::MAX,
        auction_duration: 1,
        oracle_price_offset: 5,
        ..bid(5, 0, 5)
    };
    far.insert_order(&order, account(5), 5);
    assert_eq!(try_search(&mut far, &perp(), None, state(0)), Err(NotReady));
}

#[test]
fn tested_search_refuses_orders_it_cannot_match() {
    // Two asks of which one has no price.
    let mut unpriced = crossing_book();
    let order = Order {
        oracle_price_offset: -1000,
        ..ask(5, 0, 5)
    };
    unpriced.insert_order(&order, account(5), 5);
    assert_eq!(
        try_search(&mut unpriced, &perp(), None, state(0)),
        Err(NotReady)
    );
    // A matching order that is filled beyond its size.
    let mut overfilled = crossing_book();
    let order = Order {
        base_asset_amount_filled: 6,
        ..bid(5, 90, 5)
    };
    overfilled.insert_order(&order, account(5), 5);
    assert_eq!(
        try_search(&mut overfilled, &perp(), None, state(0)),
        Err(NotReady)
    );
    // One order in two lists of a side.
    let mut twice = crossing_book();
    let order = Order {
        order_type: OrderType::Market,
        ..bid(2, 85, 4)
    };
    twice.insert_order(&order, account(2), 5);
    assert_eq!(
        try_search(&mut twice, &perp(), None, state(0)),
        Err(NotReady)
    );
    // A taker without a price meets a maker, and liquidity from outside the book.
    let unpriced_taker = Order {
        order_type: OrderType::Market,
        ..bid(5, 0, 5)
    };
    let mut meeting = crossing_book();
    meeting.insert_order(&unpriced_taker, account(5), 5);
    assert_eq!(
        try_search(&mut meeting, &perp(), None, state(0)),
        Err(NotReady)
    );
    let mut alone = DLOB::new();
    let unpriced_ask = Order {
        direction: PositionDirection::Short,
        ..unpriced_taker
    };
    alone.insert_order(&unpriced_ask, account(5), 5);
    assert_eq!(
        try_search(&mut alone, &perp(), None, state(0)),
        Ok(Some(vec![]))
    );
    assert_eq!(
        try_search(&mut alone, &perp(), Some(100), state(0)),
        Err(NotReady)
    );
}

#[test]
fn refused_search_brings_the_book_to_the_slot() {
    let mut dlob = DLOB::new();
    let waiting = Order {
        auction_duration: 2,
        ..ask(1, 90, 5)
    };
    dlob.insert_order(&waiting, account(1), 1);
    let order = Order {
        base_asset_amount_filled: 6,
        ..bid(2, 95, 5)
    };
    dlob.insert_order(&order, account(2), 5);
    assert_eq!(try_search(&mut dlob, &perp(), None, state(0)), Err(NotReady));
    let market = dlob.exchange().perp.get(0).unwrap();
    assert_eq!(market.resting_limit_orders.asks.len(), 1);
    assert_eq!(market.taking_limit_orders.asks.len(), 0);
    assert_eq!(
        dlob.get_order(1, account(1)).unwrap().base_asset_amount_filled,
        0
    );
}

#[test]
fn orders_are_tested_for_a_search() {
    let mut dlob = crossing_book();
    dlob.update_resting_limit_orders(50);
    let search = FillSearch {
        market_type: MarketType::Perp,
        market_index: 0,
        slot: 50,
        oracle: oracle(100),
        is_amm_paused: false,
        min_auction_duration: 10,
        fallback_bid: Some(100),
        fallback_ask: None,
    };
    assert!(dlob.has_market(MarketType::Perp, 0));
    assert!(!dlob.has_market(MarketType::Spot, 0));
    assert!(dlob.are_orders_ready(&search));
    let order = Order {
        oracle_price_offset: -1000,
        ..ask(5, 0, 5)
    };
    dlob.insert_order(&order, account(5), 5);
    assert!(!dlob.are_orders_ready(&search));
}
