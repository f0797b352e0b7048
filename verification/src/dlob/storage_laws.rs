//! Where orders are kept, in what order they come and what bringing a book to a slot
//! does to them, in terms of the fields of the orders.

use vstd::prelude::*;

use crate::dlob::book::{
    empty_book, lemma_with_market, lemma_with_queue, order_inserted, order_place, order_updated,
    BookView, Place,
};
use crate::dlob::dlob::no_open_orders;
use crate::dlob::market::{turn, MarketView};
use crate::dlob::node::{decimal, order_signature, Node, NodeType, SubType};
use crate::dlob::order_queue::{holds, is_queue};
use crate::dlob::quotes::{price_rank, quotes, slot_rank, takers, Side};
use crate::dlob::resting::{
    adds, brought_to, carried_over, comes_to_rest, goes_on_taking, lemma_carried_over,
    market_rested, rested, rested_by_some_walk,
};
use crate::dlob::sorting::{lemma_rank_position, lemma_rank_sorted, rank_position, rank_sorted};
use crate::dlob::users::{gives, is_on, on_kind};
use crate::index::walks;
use crate::math::order::resting;
use crate::pubkey::{pubkey_text, Pubkey};
use crate::types::{
    default_order, MarketType, OraclePriceData, Order, OrderStatus, OrderTriggerCondition,
    OrderType, PositionDirection,
};

verus! {

/// The kinds of orders, by their types.
pub proof fn lemma_kinds_of_orders(order: Order)
    ensures
        order.limit_kind() <==> match order.order_type {
            OrderType::Limit => true,
            OrderType::TriggerLimit => true,
            OrderType::Market => false,
            OrderType::TriggerMarket => false,
            OrderType::Oracle => false,
        },
        order.trigger_kind() <==> match order.order_type {
            OrderType::Limit => false,
            OrderType::TriggerLimit => true,
            OrderType::Market => false,
            OrderType::TriggerMarket => true,
            OrderType::Oracle => false,
        },
        order.has_triggered() <==> match order.trigger_condition {
            OrderTriggerCondition::Above => false,
            OrderTriggerCondition::Below => false,
            OrderTriggerCondition::TriggeredAbove => true,
            OrderTriggerCondition::TriggeredBelow => true,
        },
{
}

/// Where an order belongs. One of a trigger type whose trigger price has not been met
/// is in the trigger list, among the bids where it waits for the price to rise and
/// among the asks where it waits for it to fall, whatever its direction. Every other
/// order is among the bids where it is long and among the asks where it is short: in
/// the market list where it is of a market type, else in the floating list where it
/// has an offset from the oracle price, else in the resting or the taking list.
pub proof fn lemma_where_an_order_belongs(order: Order, slot: u64)
    ensures
        order_place(order, slot).market_type == order.market_type,
        order_place(order, slot).market_index == order.market_index,
        ({
            let of_trigger_type = order.order_type == OrderType::TriggerMarket || order.order_type
                == OrderType::TriggerLimit;
            let above = order.trigger_condition == OrderTriggerCondition::Above;
            let below = order.trigger_condition == OrderTriggerCondition::Below;
            let waits = of_trigger_type && (above || below);
            let place = order_place(order, slot);
            &&& waits && above ==> place.node_type == NodeType::Trigger && place.sub_type
                == SubType::Bid
            &&& waits && below ==> place.node_type == NodeType::Trigger && place.sub_type
                == SubType::Ask
            &&& !waits ==> match order.direction {
                PositionDirection::Long => place.sub_type == SubType::Bid,
                PositionDirection::Short => place.sub_type == SubType::Ask,
            }
            &&& !waits ==> match order.order_type {
                OrderType::Market => place.node_type == NodeType::Market,
                OrderType::TriggerMarket => place.node_type == NodeType::Market,
                OrderType::Oracle => place.node_type == NodeType::Market,
                _ => place.node_type == if order.oracle_price_offset != 0 {
                    NodeType::FloatingLimit
                } else if resting(order, slot) {
                    NodeType::RestingLimit
                } else {
                    NodeType::TakingLimit
                },
            }
        }),
{
}

/// The queues of a market.
pub proof fn lemma_queues_of_a_market(market: MarketView)
    ensures
        market.queue(NodeType::RestingLimit, SubType::Bid) == market.resting_limit_orders.bids,
        market.queue(NodeType::RestingLimit, SubType::Ask) == market.resting_limit_orders.asks,
        market.queue(NodeType::FloatingLimit, SubType::Bid) == market.floating_limit_orders.bids,
        market.queue(NodeType::FloatingLimit, SubType::Ask) == market.floating_limit_orders.asks,
        market.queue(NodeType::TakingLimit, SubType::Bid) == market.taking_limit_orders.bids,
        market.queue(NodeType::TakingLimit, SubType::Ask) == market.taking_limit_orders.asks,
        market.queue(NodeType::Market, SubType::Bid) == market.market_orders.bids,
        market.queue(NodeType::Market, SubType::Ask) == market.market_orders.asks,
        market.queue(NodeType::Trigger, SubType::Bid) == market.trigger_orders.bids,
        market.queue(NodeType::Trigger, SubType::Ask) == market.trigger_orders.asks,
{
}

/// How many orders a market has: those of its ten queues.
pub proof fn lemma_size_of_a_market(market: MarketView)
    ensures
        market.size() == market.resting_limit_orders.bids.len()
            + market.resting_limit_orders.asks.len() + market.floating_limit_orders.bids.len()
            + market.floating_limit_orders.asks.len() + market.taking_limit_orders.bids.len()
            + market.taking_limit_orders.asks.len() + market.market_orders.bids.len()
            + market.market_orders.asks.len() + market.trigger_orders.bids.len()
            + market.trigger_orders.asks.len(),
{
}

/// In what order the nodes of a queue come. Resting bids come by price from the top,
/// resting asks from the bottom; floating ones so by their offset. Orders that take
/// come by the slot in which they were placed, the oldest first. Triggers that wait for
/// the price to rise come by their trigger price from the bottom, those that wait for
/// it to fall from the top. No order comes twice.
pub proof fn lemma_order_of_a_queue(
    node_type: NodeType,
    sub_type: SubType,
    nodes: Seq<Node>,
    i: int,
    j: int,
)
    requires
        is_queue(node_type, sub_type, nodes),
        0 <= i < j < nodes.len(),
    ensures
        nodes[i].order.order_id != nodes[j].order.order_id || nodes[i].user_account
            != nodes[j].user_account,
        match (node_type, sub_type) {
            (NodeType::RestingLimit, SubType::Bid) => nodes[i].order.price >= nodes[j].order.price,
            (NodeType::RestingLimit, SubType::Ask) => nodes[i].order.price <= nodes[j].order.price,
            (NodeType::FloatingLimit, SubType::Bid) => nodes[i].order.oracle_price_offset
                >= nodes[j].order.oracle_price_offset,
            (NodeType::FloatingLimit, SubType::Ask) => nodes[i].order.oracle_price_offset
                <= nodes[j].order.oracle_price_offset,
            (NodeType::TakingLimit, _) => nodes[i].order.slot <= nodes[j].order.slot,
            (NodeType::Market, _) => nodes[i].order.slot <= nodes[j].order.slot,
            (NodeType::Trigger, SubType::Bid) => nodes[i].order.trigger_price
                <= nodes[j].order.trigger_price,
            (NodeType::Trigger, SubType::Ask) => nodes[i].order.trigger_price
                >= nodes[j].order.trigger_price,
        },
{
    assert(nodes[i].signature() != nodes[j].signature());
}

/// What an insert does: the queue in which the order belongs holds it, and holds of
/// what was there all but a node with its signature. The rest of the book stays as it
/// is, but that the market is there.
pub proof fn lemma_what_an_insert_does(
    before: BookView,
    order: Order,
    account: Pubkey,
    slot: u64,
    after: BookView,
    place: Place,
    n: Node,
)
    requires
        order_inserted(before, order, account, slot, after),
    ensures
        after.has_market(order.market_type, order.market_index),
        after.max_slot == before.max_slot,
        after.initialized == before.initialized,
        after.open_orders == before.open_orders,
        after.has(place) <==> before.has(place) || (place.market_type == order.market_type
            && place.market_index == order.market_index),
        place == order_place(order, slot) ==> (after.queue(place).contains(n) <==> n == (Node {
            order,
            user_account: account,
        }) || (before.has(place) && before.queue(place).contains(n) && n.signature()
            != order_signature(order.order_id, account))),
        place != order_place(order, slot) && before.has(place) ==> after.queue(place)
            == before.queue(place),
        place != order_place(order, slot) && !before.has(place) && after.has(place) ==> after.queue(
            place,
        ).len() == 0,
{
    let home = order_place(order, slot);
    let ready = before.with_market(order.market_type, order.market_index);
    lemma_with_market(before, order.market_type, order.market_index);
    lemma_with_queue(ready, home, after.queue(home));
    assert(after.has(place) == ready.has(place));
    if place == home {
        assert(ready.queue(place).contains(n) ==> before.has(place));
    }
}

/// What an update does: where the queue in which the order belongs has a node with its
/// signature, the order takes the place of that. Nothing else changes.
pub proof fn lemma_what_an_update_does(
    before: BookView,
    order: Order,
    account: Pubkey,
    slot: u64,
    after: BookView,
    place: Place,
    n: Node,
)
    requires
        before.has_market(order.market_type, order.market_index),
        order_updated(before, order, account, slot, after),
    ensures
        after.max_slot == before.max_slot,
        after.has(place) == before.has(place),
        place != order_place(order, slot) ==> after.queue(place) == before.queue(place),
        place == order_place(order, slot) ==> after.queue(place).len() == before.queue(place).len(),
        place == order_place(order, slot) && (forall|i: int|
            0 <= i < before.queue(place).len() ==> (#[trigger] before.queue(place)[i]).signature()
                != order_signature(order.order_id, account)) ==> after.queue(place)
            == before.queue(place),
        place == order_place(order, slot) && (exists|i: int|
            0 <= i < before.queue(place).len() && (#[trigger] before.queue(place)[i]).signature()
                == order_signature(order.order_id, account)) ==> (after.queue(place).contains(n)
            <==> n == (Node { order, user_account: account }) || (before.queue(place).contains(n)
            && n.signature() != order_signature(order.order_id, account))),
{
    let home = order_place(order, slot);
    lemma_with_queue(before, home, after.queue(home));
    assert(after.has(place) == before.has(place));
}

/// A book that was just made has a set of open orders for either kind of market, each
/// empty.
pub proof fn lemma_open_orders_of_a_new_book(name: Seq<char>)
    ensures
        no_open_orders().contains_key(name) <==> name == "perp"@ || name == "spot"@,
        no_open_orders().contains_key(name) ==> no_open_orders()[name] == Set::<
            Seq<char>,
        >::empty(),
{
}

/// The order of an unused slot of an account: a long perp limit order of which nothing
/// is left to fill.
pub proof fn lemma_default_order()
    ensures
        default_order().status == OrderStatus::Init,
        default_order().order_type == OrderType::Limit,
        default_order().market_type == MarketType::Perp,
        default_order().direction == PositionDirection::Long,
        default_order().base_asset_amount == 0,
        default_order().base_asset_amount_filled == 0,
        default_order().price == 0,
        default_order().slot == 0,
        default_order().auction_duration == 0,
        default_order().auction_start_price == 0,
        default_order().auction_end_price == 0,
        default_order().oracle_price_offset == 0,
        default_order().max_ts == 0,
        default_order().trigger_price == 0,
        default_order().trigger_condition == OrderTriggerCondition::Above,
        default_order().order_id == 0,
        default_order().market_index == 0,
        !default_order().post_only,
{
}

/// A book that was just made or cleared.
pub proof fn lemma_empty_book(
    open_orders: Map<Seq<char>, Set<Seq<char>>>,
    initialized: bool,
    place: Place,
)
    ensures
        !empty_book(open_orders, initialized).has(place),
        empty_book(open_orders, initialized).max_slot == 0,
        empty_book(open_orders, initialized).open_orders == open_orders,
        empty_book(open_orders, initialized).initialized == initialized,
{
}

proof fn lemma_sum_contains(a: Seq<Node>, b: Seq<Node>, n: Node)
    ensures
        (a + b).contains(n) <==> a.contains(n) || b.contains(n),
{
    if a.contains(n) {
        let i = choose|i: int| 0 <= i < a.len() && a[i] == n;
        assert((a + b)[i] == n);
    }
    if b.contains(n) {
        let i = choose|i: int| 0 <= i < b.len() && b[i] == n;
        assert((a + b)[a.len() + i] == n);
    }
}

/// The makers of a side: its resting and its floating orders, and no other, sorted by
/// price, bids from the top and asks from the bottom. Where prices are equal what is
/// listed later, the floating orders after the resting ones, comes first.
pub proof fn lemma_makers_of_a_side(
    book: BookView,
    market_type: MarketType,
    market_index: u16,
    oracle: OraclePriceData,
    slot: u64,
    n: Node,
)
    ensures
        ({
            let market = book.market(market_type, market_index);
            let bids = quotes(
                book,
                Side { market_type, market_index, sub_type: SubType::Bid },
                oracle,
                slot,
            );
            let asks = quotes(
                book,
                Side { market_type, market_index, sub_type: SubType::Ask },
                oracle,
                slot,
            );
            &&& bids.contains(n) <==> market.resting_limit_orders.bids.contains(n)
                || market.floating_limit_orders.bids.contains(n)
            &&& asks.contains(n) <==> market.resting_limit_orders.asks.contains(n)
                || market.floating_limit_orders.asks.contains(n)
            &&& bids.len() == market.resting_limit_orders.bids.len()
                + market.floating_limit_orders.bids.len()
            &&& asks.len() == market.resting_limit_orders.asks.len()
                + market.floating_limit_orders.asks.len()
            &&& bids == rank_sorted(
                market.resting_limit_orders.bids + market.floating_limit_orders.bids,
                |m: Node| -m.price(oracle, slot),
            )
            &&& asks == rank_sorted(
                market.resting_limit_orders.asks + market.floating_limit_orders.asks,
                |m: Node| m.price(oracle, slot),
            )
        }),
{
    assert(price_rank(SubType::Bid, oracle, slot) =~= (|m: Node| -m.price(oracle, slot)));
    assert(price_rank(SubType::Ask, oracle, slot) =~= (|m: Node| m.price(oracle, slot)));
    let market = book.market(market_type, market_index);
    let resting_bids = market.resting_limit_orders.bids;
    let floating_bids = market.floating_limit_orders.bids;
    let resting_asks = market.resting_limit_orders.asks;
    let floating_asks = market.floating_limit_orders.asks;
    lemma_rank_sorted(resting_bids + floating_bids, price_rank(SubType::Bid, oracle, slot));
    lemma_rank_sorted(resting_asks + floating_asks, price_rank(SubType::Ask, oracle, slot));
    lemma_sum_contains(resting_bids, floating_bids, n);
    lemma_sum_contains(resting_asks, floating_asks, n);
}

/// The takers of a side: its taking limit orders and its market orders, and no other,
/// sorted by the slot in which they were placed, the latest first. Where slots are equal
/// what is listed later, the market orders after the limit orders, comes first.
pub proof fn lemma_takers_of_a_side(
    book: BookView,
    market_type: MarketType,
    market_index: u16,
    n: Node,
)
    ensures
        ({
            let market = book.market(market_type, market_index);
            let bids = takers(book, Side { market_type, market_index, sub_type: SubType::Bid });
            let asks = takers(book, Side { market_type, market_index, sub_type: SubType::Ask });
            &&& bids.contains(n) <==> market.taking_limit_orders.bids.contains(n)
                || market.market_orders.bids.contains(n)
            &&& asks.contains(n) <==> market.taking_limit_orders.asks.contains(n)
                || market.market_orders.asks.contains(n)
            &&& bids.len() == market.taking_limit_orders.bids.len()
                + market.market_orders.bids.len()
            &&& asks.len() == market.taking_limit_orders.asks.len()
                + market.market_orders.asks.len()
            &&& bids == rank_sorted(
                market.taking_limit_orders.bids + market.market_orders.bids,
                |m: Node| -(m.order.slot as int),
            )
            &&& asks == rank_sorted(
                market.taking_limit_orders.asks + market.market_orders.asks,
                |m: Node| -(m.order.slot as int),
            )
        }),
{
    assert(slot_rank() =~= (|m: Node| -(m.order.slot as int)));
    let market = book.market(market_type, market_index);
    let taking_bids = market.taking_limit_orders.bids;
    let market_bids = market.market_orders.bids;
    let taking_asks = market.taking_limit_orders.asks;
    let market_asks = market.market_orders.asks;
    lemma_rank_sorted(taking_bids + market_bids, slot_rank());
    lemma_rank_sorted(taking_asks + market_asks, slot_rank());
    lemma_sum_contains(taking_bids, market_bids, n);
    lemma_sum_contains(taking_asks, market_asks, n);
}

/// A node that is listed last goes before every node whose rank is not smaller than
/// its own and behind every other; these keep their order.
pub proof fn lemma_last_listed_comes_first_of_its_rank(
    nodes: Seq<Node>,
    more: Node,
    rank: spec_fn(Node) -> int,
) -> (position: int)
    ensures
        0 <= position <= nodes.len(),
        rank_sorted(nodes.push(more), rank) == rank_sorted(nodes, rank).insert(position, more),
        forall|i: int|
            0 <= i < position ==> rank(#[trigger] rank_sorted(nodes, rank)[i]) < rank(more),
        forall|i: int|
            position <= i < nodes.len() ==> rank(#[trigger] rank_sorted(nodes, rank)[i]) >= rank(
                more,
            ),
{
    let sorted = rank_sorted(nodes, rank);
    let position = rank_position(sorted, rank, rank(more));
    assert(nodes.push(more).drop_last() =~= nodes);
    lemma_rank_sorted(nodes, rank);
    lemma_rank_position(sorted, rank, rank(more));
    assert forall|i: int| 0 <= i < position implies rank(#[trigger] sorted[i]) < rank(more) by {
        if i < position - 1 {
            assert(rank(sorted[i]) <= rank(sorted[position - 1]));
        }
    }
    position
}

/// What bringing a book to a slot that it was not brought to before does. The taking
/// limit orders that rest in the slot are then resting orders, in the place of any
/// with their signatures. Those that do not rest go on taking. The other lists stay as
/// they are, and no market comes or goes. A taking order can only be one that was
/// taking in a market of the kind and does not rest.
pub proof fn lemma_what_bringing_does(
    before: BookView,
    slot: u64,
    after: BookView,
    market_type: MarketType,
    market_index: u16,
    n: Node,
)
    requires
        before.sound(),
        brought_to(before, slot, after),
        slot > before.max_slot,
        before.has_market(market_type, market_index),
    ensures
        after.max_slot == slot,
        after.has_market(market_type, market_index),
        after.open_orders == before.open_orders,
        after.initialized == before.initialized,
        ({
            let was = before.market(market_type, market_index);
            let now = after.market(market_type, market_index);
            &&& now.floating_limit_orders.bids == was.floating_limit_orders.bids
            &&& now.floating_limit_orders.asks == was.floating_limit_orders.asks
            &&& now.market_orders.bids == was.market_orders.bids
            &&& now.market_orders.asks == was.market_orders.asks
            &&& now.trigger_orders.bids == was.trigger_orders.bids
            &&& now.trigger_orders.asks == was.trigger_orders.asks
            &&& now.resting_limit_orders.bids.contains(n) <==> (resting(n.order, slot)
                && was.taking_limit_orders.bids.contains(n)) || (was.resting_limit_orders.bids.contains(n) && !exists|
                m: Node,
            | #[trigger]
                was.taking_limit_orders.bids.contains(m) && resting(m.order, slot) && m.signature()
                    == n.signature())
            &&& now.resting_limit_orders.asks.contains(n) <==> (resting(n.order, slot)
                && was.taking_limit_orders.asks.contains(n)) || (was.resting_limit_orders.asks.contains(n) && !exists|
                m: Node,
            | #[trigger]
                was.taking_limit_orders.asks.contains(m) && resting(m.order, slot) && m.signature()
                    == n.signature())
            &&& was.taking_limit_orders.bids.contains(n) && !resting(n.order, slot)
                ==> now.taking_limit_orders.bids.contains(n)
            &&& was.taking_limit_orders.asks.contains(n) && !resting(n.order, slot)
                ==> now.taking_limit_orders.asks.contains(n)
            &&& now.taking_limit_orders.bids.contains(n) ==> !resting(n.order, slot) && exists|
                index: u16,
            | #[trigger]
                before.has_market(market_type, index) && before.market(
                    market_type,
                    index,
                ).taking_limit_orders.bids.contains(n)
            &&& now.taking_limit_orders.asks.contains(n) ==> !resting(n.order, slot) && exists|
                index: u16,
            | #[trigger]
                before.has_market(market_type, index) && before.market(
                    market_type,
                    index,
                ).taking_limit_orders.asks.contains(n)
        }),
{
    lemma_bringing_a_side(before, slot, after, market_type, market_index, SubType::Bid, n);
    lemma_bringing_a_side(before, slot, after, market_type, market_index, SubType::Ask, n);
}

proof fn lemma_bringing_a_side(
    before: BookView,
    slot: u64,
    after: BookView,
    market_type: MarketType,
    market_index: u16,
    sub_type: SubType,
    n: Node,
)
    requires
        before.sound(),
        brought_to(before, slot, after),
        slot > before.max_slot,
        before.has_market(market_type, market_index),
    ensures
        after.has_market(market_type, market_index),
        ({
            let was = before.market(market_type, market_index);
            let now = after.market(market_type, market_index);
            let taking = was.queue(NodeType::TakingLimit, sub_type);
            &&& now.floating_limit_orders == was.floating_limit_orders
            &&& now.market_orders == was.market_orders
            &&& now.trigger_orders == was.trigger_orders
            &&& now.queue(NodeType::RestingLimit, sub_type).contains(n) <==> (taking.contains(n)
                && resting(n.order, slot)) || (was.queue(
                NodeType::RestingLimit,
                sub_type,
            ).contains(n) && !exists|m: Node| #[trigger]
                taking.contains(m) && resting(m.order, slot) && m.signature() == n.signature())
            &&& taking.contains(n) && !resting(n.order, slot) ==> now.queue(
                NodeType::TakingLimit,
                sub_type,
            ).contains(n)
            &&& now.queue(NodeType::TakingLimit, sub_type).contains(n) ==> !resting(n.order, slot)
                && exists|index: u16| #[trigger]
                before.has_market(market_type, index) && before.market(market_type, index).queue(
                    NodeType::TakingLimit,
                    sub_type,
                ).contains(n)
        }),
{
    let old_markets = before.markets(market_type);
    let new_markets = after.markets(market_type);
    assert(rested_by_some_walk(old_markets, slot, new_markets));
    let walk = choose|walk: Seq<u16>|
        walks(walk, old_markets) && #[trigger] rested(old_markets, walk, slot, new_markets);
    assert(old_markets.contains_key(market_index));
    assert(walk.contains(market_index));
    let k = choose|k: int| 0 <= k < walk.len() && walk[k] == market_index;
    assert(new_markets.contains_key(market_index));
    let was = before.market(market_type, market_index);
    let now = after.market(market_type, market_index);
    let taking = was.queue(NodeType::TakingLimit, sub_type);
    assert(market_rested(was, carried_over(new_markets, walk, k), slot, now));
    let moved = comes_to_rest(was, sub_type, slot);
    assert(adds(moved, n.signature()) <==> exists|m: Node| #[trigger]
        taking.contains(m) && resting(m.order, slot) && m.signature() == n.signature()) by {
        if adds(moved, n.signature()) {
            let m = choose|m: Node| #[trigger] moved(m) && m.signature() == n.signature();
            assert(taking.contains(m));
        }
        if exists|m: Node| #[trigger]
            taking.contains(m) && resting(m.order, slot) && m.signature() == n.signature() {
            let m = choose|m: Node| #[trigger]
                taking.contains(m) && resting(m.order, slot) && m.signature() == n.signature();
            assert(moved(m));
        }
    }
    assert(now.queue(NodeType::RestingLimit, sub_type).contains(n) <==> moved(n) || (was.queue(
        NodeType::RestingLimit,
        sub_type,
    ).contains(n) && !adds(moved, n.signature())));
    if taking.contains(n) && !resting(n.order, slot) {
        assert(goes_on_taking(was, sub_type, slot)(n));
        assert(now.queue(NodeType::TakingLimit, sub_type).contains(n));
    }
    if now.queue(NodeType::TakingLimit, sub_type).contains(n) {
        let j = lemma_carried_over(old_markets, walk, slot, new_markets, k, sub_type, n);
        assert(walk.contains(walk[j]));
        assert(before.has_market(market_type, walk[j]));
    }
}

proof fn lemma_taking_orders_pile_up(
    old_markets: Map<u16, MarketView>,
    walk: Seq<u16>,
    slot: u64,
    new_markets: Map<u16, MarketView>,
    j: int,
    k: int,
    sub_type: SubType,
    n: Node,
)
    requires
        rested(old_markets, walk, slot, new_markets),
        0 <= j <= k < walk.len(),
        old_markets[walk[j]].queue(NodeType::TakingLimit, sub_type).contains(n),
        !resting(n.order, slot),
    ensures
        holds(new_markets[walk[k]].queue(NodeType::TakingLimit, sub_type), n.signature()),
    decreases k - j,
{
    let was = old_markets[walk[k]];
    let now = new_markets[walk[k]].queue(NodeType::TakingLimit, sub_type);
    let added = goes_on_taking(was, sub_type, slot);
    let carried = carried_over(new_markets, walk, k).queue(sub_type);
    assert(market_rested(was, carried_over(new_markets, walk, k), slot, new_markets[walk[k]]));
    let kept = if j == k {
        assert(added(n));
        n
    } else {
        lemma_taking_orders_pile_up(
            old_markets,
            walk,
            slot,
            new_markets,
            j,
            k - 1,
            sub_type,
            n,
        );
        let i = choose|i: int|
            0 <= i < carried.len() && (#[trigger] carried[i]).signature() == n.signature();
        assert(carried.contains(carried[i]));
        if adds(added, n.signature()) {
            choose|m: Node| #[trigger] added(m) && m.signature() == n.signature()
        } else {
            carried[i]
        }
    };
    assert(now.contains(kept));
    let i = choose|i: int| 0 <= i < now.len() && now[i] == kept;
    assert(now[i].signature() == n.signature());
}

/// The taking orders of the markets of a kind pile up as these are looked at: the one
/// that is looked at last is left with an order under the number and account of every
/// taking order of all of them that does not rest.
pub proof fn lemma_last_market_has_all_taking_orders(
    before: BookView,
    slot: u64,
    after: BookView,
    market_type: MarketType,
    market_index: u16,
) -> (last: u16)
    requires
        brought_to(before, slot, after),
        slot > before.max_slot,
        before.has_market(market_type, market_index),
    ensures
        after.has_market(market_type, last),
        forall|index: u16, n: Node|
            #![trigger before.market(market_type, index).taking_limit_orders.bids.contains(n)]
            before.has_market(market_type, index) && before.market(
                market_type,
                index,
            ).taking_limit_orders.bids.contains(n) && !resting(n.order, slot) ==> holds(
                after.market(market_type, last).taking_limit_orders.bids,
                n.signature(),
            ),
        forall|index: u16, n: Node|
            #![trigger before.market(market_type, index).taking_limit_orders.asks.contains(n)]
            before.has_market(market_type, index) && before.market(
                market_type,
                index,
            ).taking_limit_orders.asks.contains(n) && !resting(n.order, slot) ==> holds(
                after.market(market_type, last).taking_limit_orders.asks,
                n.signature(),
            ),
{
    let old_markets = before.markets(market_type);
    let new_markets = after.markets(market_type);
    assert(rested_by_some_walk(old_markets, slot, new_markets));
    let walk = choose|walk: Seq<u16>|
        walks(walk, old_markets) && #[trigger] rested(old_markets, walk, slot, new_markets);
    assert(walk.contains(market_index));
    let end = walk.len() - 1;
    assert(walk.contains(walk[end]));
    assert(new_markets.contains_key(walk[end]));
    assert forall|index: u16, n: Node|
        #![trigger before.market(market_type, index).taking_limit_orders.bids.contains(n)]
        before.has_market(market_type, index) && before.market(
            market_type,
            index,
        ).taking_limit_orders.bids.contains(n) && !resting(n.order, slot) implies holds(
        after.market(market_type, walk[end]).taking_limit_orders.bids,
        n.signature(),
    ) by {
        assert(walk.contains(index));
        let j = choose|j: int| 0 <= j < walk.len() && walk[j] == index;
        lemma_taking_orders_pile_up(
            old_markets,
            walk,
            slot,
            new_markets,
            j,
            end,
            SubType::Bid,
            n,
        );
    }
    assert forall|index: u16, n: Node|
        #![trigger before.market(market_type, index).taking_limit_orders.asks.contains(n)]
        before.has_market(market_type, index) && before.market(
            market_type,
            index,
        ).taking_limit_orders.asks.contains(n) && !resting(n.order, slot) implies holds(
        after.market(market_type, walk[end]).taking_limit_orders.asks,
        n.signature(),
    ) by {
        assert(walk.contains(index));
        let j = choose|j: int| 0 <= j < walk.len() && walk[j] == index;
        lemma_taking_orders_pile_up(
            old_markets,
            walk,
            slot,
            new_markets,
            j,
            end,
            SubType::Ask,
            n,
        );
    }
    walk[end]
}

/// A book that was brought to a slot before, or to a later one, stays as it is.
pub proof fn lemma_nothing_to_bring(before: BookView, slot: u64, after: BookView)
    requires
        brought_to(before, slot, after),
        slot <= before.max_slot,
    ensures
        after == before,
{
}

/// Where a market looks for an order: through the resting, the floating, the taking,
/// the market and the trigger orders, in each the bids before the asks. The first node
/// with the signature is the answer.
pub proof fn lemma_where_a_market_looks(market: MarketView, signature: Seq<char>, order: Order)
    ensures
        ({
            let queues = seq![
                market.resting_limit_orders.bids,
                market.resting_limit_orders.asks,
                market.floating_limit_orders.bids,
                market.floating_limit_orders.asks,
                market.taking_limit_orders.bids,
                market.taking_limit_orders.asks,
                market.market_orders.bids,
                market.market_orders.asks,
                market.trigger_orders.bids,
                market.trigger_orders.asks,
            ];
            market.finds(signature, order) <==> exists|k: int, i: int|
                #![trigger queues[k][i]]
                0 <= k < 10 && 0 <= i < queues[k].len() && queues[k][i].signature() == signature
                    && queues[k][i].order == order && forall|j: int, l: int|
                    0 <= j < k && 0 <= l < queues[j].len() ==> (
                    #[trigger] queues[j][l]).signature() != signature
        }),
{
    let queues = seq![
        market.resting_limit_orders.bids,
        market.resting_limit_orders.asks,
        market.floating_limit_orders.bids,
        market.floating_limit_orders.asks,
        market.taking_limit_orders.bids,
        market.taking_limit_orders.asks,
        market.market_orders.bids,
        market.market_orders.asks,
        market.trigger_orders.bids,
        market.trigger_orders.asks,
    ];
    assert forall|node_type: NodeType, sub_type: SubType| queues[turn(node_type, sub_type)]
        == #[trigger] market.queue(node_type, sub_type) && 0 <= turn(node_type, sub_type) < 10 by {
        lemma_queues_of_a_market(market);
    }
    if market.finds(signature, order) {
        let (node_type, sub_type, node) = choose|node_type: NodeType, sub_type: SubType, node: Node|
         #[trigger]
            market.queue(node_type, sub_type).contains(node) && node.signature() == signature
                && node.order == order && market.first_with(signature, node_type, sub_type);
        let k = turn(node_type, sub_type);
        let i = choose|i: int| 0 <= i < queues[k].len() && queues[k][i] == node;
        assert forall|j: int, l: int| 0 <= j < k && 0 <= l < queues[j].len() implies (
        #[trigger] queues[j][l]).signature() != signature by {
            let (earlier, side) = lemma_turns(j);
            assert(market.queue(earlier, side) == queues[j]);
            assert(!holds(market.queue(earlier, side), signature));
        }
        assert(queues[k][i].order == order);
    }
    if exists|k: int, i: int|
        #![trigger queues[k][i]]
        0 <= k < 10 && 0 <= i < queues[k].len() && queues[k][i].signature() == signature
            && queues[k][i].order == order && forall|j: int, l: int|
            0 <= j < k && 0 <= l < queues[j].len() ==> (#[trigger] queues[j][l]).signature()
                != signature {
        let (k, i) = choose|k: int, i: int|
            #![trigger queues[k][i]]
            0 <= k < 10 && 0 <= i < queues[k].len() && queues[k][i].signature() == signature
                && queues[k][i].order == order && forall|j: int, l: int|
                0 <= j < k && 0 <= l < queues[j].len() ==> (#[trigger] queues[j][l]).signature()
                    != signature;
        let (node_type, sub_type) = lemma_turns(k);
        assert(market.queue(node_type, sub_type) == queues[k]);
        assert(market.queue(node_type, sub_type).contains(queues[k][i]));
        assert forall|earlier: NodeType, side: SubType|
            turn(earlier, side) < turn(node_type, sub_type) implies !holds(
            #[trigger] market.queue(earlier, side),
            signature,
        ) by {
            let j = turn(earlier, side);
            assert(queues[j] == market.queue(earlier, side));
            if holds(queues[j], signature) {
                let l = choose|l: int|
                    0 <= l < queues[j].len() && (#[trigger] queues[j][l]).signature() == signature;
                assert(queues[j][l].signature() != signature);
            }
        }
        assert(market.first_with(signature, node_type, sub_type));
    }
}

proof fn lemma_turns(k: int) -> (queue: (NodeType, SubType))
    requires
        0 <= k < 10,
    ensures
        turn(queue.0, queue.1) == k,
{
    let side = if k % 2 == 0 {
        SubType::Bid
    } else {
        SubType::Ask
    };
    if k < 2 {
        (NodeType::RestingLimit, side)
    } else if k < 4 {
        (NodeType::FloatingLimit, side)
    } else if k < 6 {
        (NodeType::TakingLimit, side)
    } else if k < 8 {
        (NodeType::Market, side)
    } else {
        (NodeType::Trigger, side)
    }
}

/// An order of a perp market is the answer before one of a spot market, and there is an
/// answer exactly where some queue of the book has a node with that number and account.
pub proof fn lemma_perp_answers_first(
    book: BookView,
    order_id: u32,
    account: Pubkey,
    found: Option<Order>,
)
    requires
        book.sound(),
        gives(book, order_id, account, found),
    ensures
        found is None <==> forall|place: Place, n: Node| #[trigger]
            book.has(place) && #[trigger] book.queue(place).contains(n) ==> n.signature()
                != order_signature(order_id, account),
        found matches Some(order) ==> exists|place: Place, n: Node| #[trigger]
            book.has(place) && #[trigger] book.queue(place).contains(n) && n.signature()
                == order_signature(order_id, account) && n.order == order && place.market_type
                == order.market_type,
        found matches Some(order) ==> order.market_type == MarketType::Spot ==> forall|
            place: Place,
            n: Node,
        | #[trigger]
            book.has(place) && place.market_type == MarketType::Perp && #[trigger] book.queue(
                place,
            ).contains(n) ==> n.signature() != order_signature(order_id, account),
{
    let signature = order_signature(order_id, account);
    assert forall|place: Place, n: Node| #[trigger]
        book.has(place) && #[trigger] book.queue(place).contains(n) && n.signature()
            == signature implies holds(book.queue(place), signature) by {
        let i = choose|i: int| 0 <= i < book.queue(place).len() && book.queue(place)[i] == n;
        assert(book.queue(place)[i].signature() == signature);
    }
    match found {
        None => {
            assert forall|place: Place, n: Node| #[trigger]
                book.has(place) && #[trigger] book.queue(place).contains(n) implies n.signature()
                != signature by {
                if n.signature() == signature {
                    assert(holds(book.queue(place), signature));
                    assert(is_on(book, order_id, account));
                }
            }
        },
        Some(order) => {
            let kind = if on_kind(book, MarketType::Perp, order_id, account) {
                MarketType::Perp
            } else {
                MarketType::Spot
            };
            let index = choose|index: u16| #[trigger]
                book.has_market(kind, index) && book.market(kind, index).finds(signature, order);
            let (node_type, sub_type, node) = choose|
                node_type: NodeType,
                sub_type: SubType,
                node: Node,
            | #[trigger]
                book.market(kind, index).queue(node_type, sub_type).contains(node)
                    && node.signature() == signature && node.order == order && book.market(
                    kind,
                    index,
                ).first_with(signature, node_type, sub_type);
            let place = Place { market_type: kind, market_index: index, node_type, sub_type };
            assert(book.has(place) && book.queue(place).contains(node));
            assert(book.admits(place, node));
            if order.market_type == MarketType::Spot {
                assert forall|p: Place, n: Node| #[trigger]
                    book.has(p) && p.market_type == MarketType::Perp && #[trigger] book.queue(
                        p,
                    ).contains(n) implies n.signature() != signature by {
                    if n.signature() == signature {
                        assert(holds(book.queue(p), signature));
                        assert(on_kind(book, MarketType::Perp, order_id, account));
                    }
                }
            }
        },
    }
}

/// The number that decimal digits stand for.
pub open spec fn decimal_value(digits: Seq<char>) -> int
    decreases digits.len(),
{
    if digits.len() == 0 {
        0
    } else {
        decimal_value(digits.drop_last()) * 10 + (digits.last() as int - 48)
    }
}

proof fn lemma_decimal_value(n: nat)
    ensures
        decimal_value(decimal(n)) == n,
        decimal(n).len() > 0,
        forall|i: int| 0 <= i < decimal(n).len() ==> '0' <= #[trigger] decimal(n)[i] <= '9',
        n > 0 ==> decimal(n)[0] != '0',
    decreases n,
{
    if n < 10 {
        assert(decimal(n).drop_last() =~= Seq::<char>::empty());
        assert(decimal_value(Seq::<char>::empty()) == 0);
    } else {
        lemma_decimal_value(n / 10);
        assert(decimal(n).drop_last() =~= decimal(n / 10));
        assert(decimal(n)[0] == decimal(n / 10)[0]);
    }
}

/// What a signature says: the number of the order in decimal digits without a zero in
/// front, a dash, and the text of the address of the account.
pub proof fn lemma_what_a_signature_says(order_id: u32, account: Pubkey)
    ensures
        ({
            let signature = order_signature(order_id, account);
            let dash = signature.len() - pubkey_text(account.bytes@).len() - 1;
            &&& 0 < dash < signature.len()
            &&& signature[dash] == '-'
            &&& signature.skip(dash + 1) == pubkey_text(account.bytes@)
            &&& decimal_value(signature.take(dash)) == order_id
            &&& forall|i: int| 0 <= i < dash ==> '0' <= #[trigger] signature[i] <= '9'
            &&& order_id > 0 ==> signature[0] != '0'
        }),
{
    let signature = order_signature(order_id, account);
    let digits = decimal(order_id as nat);
    lemma_decimal_value(order_id as nat);
    assert(signature.take(digits.len() as int) =~= digits);
    assert(signature.skip(digits.len() as int + 1) =~= pubkey_text(account.bytes@));
    assert forall|i: int| 0 <= i < digits.len() implies '0' <= #[trigger] signature[i] <= '9' by {
        assert(signature[i] == digits[i]);
    }
}

} // verus!
