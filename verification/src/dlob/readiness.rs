//! What a book must be like for its orders to be matched, and that matching
//! keeps it so.

use vstd::prelude::*;

use crate::dlob::book::{
    lemma_order_updated_is_sound, lemma_with_queue, order_place, order_updated, BookView, Place,
};
use crate::dlob::matching::{
    all_matched, base_filled, matched, pair_filled, shuns_fallback, used_up, MatchRule,
};
use crate::dlob::node::{lemma_signature_is_injective, Fill, Node, NodeType};
use crate::dlob::quotes::{at_most_one_quote, quotes, quotes_sortable, will_rest, Side};
use crate::dlob::resting::brought_to;
use crate::math::order::lemma_price_ignores_fills;
use crate::pubkey::{text_spells, Pubkey};
use crate::types::{MarketType, OraclePriceData, Order};

verus! {

/// Whether two books have the same markets, with as many nodes in every queue,
/// and have been brought to the same slot.
pub open spec fn same_shape(before: BookView, after: BookView) -> bool {
    &&& after.open_orders == before.open_orders
    &&& after.initialized == before.initialized
    &&& after.max_slot == before.max_slot
    &&& forall|market_type: MarketType, market_index: u16| #[trigger]
        after.has_market(market_type, market_index) == before.has_market(market_type, market_index)
    &&& forall|place: Place| #[trigger] after.queue(place).len() == before.queue(place).len()
}

/// Whether an order can be filled by the rule: it is not filled beyond its size,
/// and the slots that the rule compares can be computed.
pub open spec fn fillable(rule: MatchRule, order: Order) -> bool {
    order.within_size() && rule.in_range(order)
}

/// Whether a node can be filled by the rule and has a price.
pub open spec fn can_match(
    rule: MatchRule,
    node: Node,
    oracle: OraclePriceData,
    slot: u64,
) -> bool {
    fillable(rule, node.order) && node.priced(oracle, slot)
}

/// Whether a node and a maker can be held against each other. Those of one account
/// need no prices, except where resting orders are searched for crossing ones. The
/// ends of the auctions are looked at where the prices of two accounts cross.
pub open spec fn can_compare(
    rule: MatchRule,
    node: Node,
    maker: Node,
    oracle: OraclePriceData,
    slot: u64,
) -> bool {
    &&& rule == MatchRule::Crossing || node.user_account != maker.user_account ==> node.priced(
        oracle,
        slot,
    ) && maker.priced(oracle, slot)
    &&& node.user_account != maker.user_account && maker.price(oracle, slot) >= node.price(
        oracle,
        slot,
    ) ==> rule.in_range(node.order) && rule.in_range(maker.order)
}

/// Whether a node can meet a maker: they can be held against each other and, where
/// they match, filled. Neither is then filled beyond its size, and the market in
/// which the node belongs is there.
pub open spec fn can_meet(
    rule: MatchRule,
    book: BookView,
    node: Node,
    maker: Node,
    oracle: OraclePriceData,
    slot: u64,
) -> bool {
    &&& can_compare(rule, node, maker, oracle, slot)
    &&& rule.pairs(node, maker, oracle, slot) ==> node.order.within_size()
        && maker.order.within_size() && book.has_market(
        node.order.market_type,
        node.order.market_index,
    )
}

/// Whether a node can be matched with the makers that a side has: these can be
/// sorted, and the node can meet each that it comes to before it is used up.
pub open spec fn node_can_match(
    rule: MatchRule,
    book: BookView,
    side: Side,
    node: Node,
    oracle: OraclePriceData,
    slot: u64,
) -> bool {
    let makers = quotes(book, side, oracle, slot);
    &&& quotes_sortable(book, side, oracle, slot)
    &&& forall|i: int|
        0 <= i < makers.len() && !used_up(
            node,
            matched(rule, node, makers.take(i), oracle, slot),
        ) ==> can_meet(rule, book, node, #[trigger] makers[i], oracle, slot)
}

/// Whether the nodes can be matched in turn with the makers of a side: each can
/// with those that the side has once the nodes before it have been matched.
pub open spec fn nodes_can_match(
    rule: MatchRule,
    book: BookView,
    side: Side,
    nodes: Seq<Node>,
    oracle: OraclePriceData,
    slot: u64,
) -> bool {
    forall|k: int, between: BookView, so_far: Seq<Fill>|
        0 <= k < nodes.len() && #[trigger] all_matched(
            rule,
            book,
            side,
            nodes.take(k),
            oracle,
            slot,
            between,
            so_far,
        ) ==> node_can_match(rule, between, side, nodes[k], oracle, slot)
}

/// Whether the nodes can be held against liquidity from outside the book: each has
/// a price, unless such liquidity does not fill it at all.
pub open spec fn nodes_meet_fallback(
    market_type: MarketType,
    nodes: Seq<Node>,
    oracle: OraclePriceData,
    slot: u64,
) -> bool {
    forall|n: Node| #[trigger]
        nodes.contains(n) ==> shuns_fallback(market_type, n) || n.priced(oracle, slot)
}

/// Whether the resting orders of a market can be searched for crossing ones, once
/// the book is brought to `slot`: every ask has a price, and the asks can be matched
/// with the bids.
pub open spec fn crossing_ready(
    book: BookView,
    asks: Side,
    bids: Side,
    oracle: OraclePriceData,
    slot: u64,
) -> bool {
    &&& book.has_market(asks.market_type, asks.market_index)
    &&& forall|brought: BookView| #[trigger]
        brought_to(book, slot, brought) ==> asks_can_cross(brought, asks, bids, oracle, slot)
}

/// Whether every resting ask of a market has a price and can be matched with the
/// bids.
pub open spec fn asks_can_cross(
    book: BookView,
    asks: Side,
    bids: Side,
    oracle: OraclePriceData,
    slot: u64,
) -> bool {
    &&& forall|a: Node| #[trigger]
        quotes(book, asks, oracle, slot).contains(a) ==> a.priced(oracle, slot)
    &&& nodes_can_match(
        MatchRule::Crossing,
        book,
        bids,
        quotes(book, asks, oracle, slot),
        oracle,
        slot,
    )
}

/// A node once `base` more of its order is filled.
pub open spec fn more_filled(node: Node, base: int) -> Node {
    Node { order: node.order.with_more_filled(base), user_account: node.user_account }
}

/// Whether one of the nodes is of the account.
pub open spec fn has_node_of(nodes: Seq<Node>, user_account: Pubkey) -> bool {
    exists|n: Node| #[trigger] nodes.contains(n) && n.user_account == user_account
}

/// Whether `after` is a book that matches can have made of `before`: the shape is
/// the same, and a node that is new in a queue is one that can be matched, in the
/// place of one of the same account.
pub open spec fn refilled(
    rule: MatchRule,
    before: BookView,
    after: BookView,
    oracle: OraclePriceData,
    slot: u64,
) -> bool {
    &&& same_shape(before, after)
    &&& forall|place: Place, n: Node| #[trigger]
        before.has(place) && #[trigger] after.queue(place).contains(n) ==> before.queue(
            place,
        ).contains(n) || (can_match(rule, n, oracle, slot) && has_node_of(
            before.queue(place),
            n.user_account,
        ))
}

/// Matches keep the shape of the book, one after the other.
pub proof fn lemma_refilled_again(
    rule: MatchRule,
    before: BookView,
    between: BookView,
    after: BookView,
    oracle: OraclePriceData,
    slot: u64,
)
    requires
        refilled(rule, before, between, oracle, slot),
        refilled(rule, between, after, oracle, slot),
    ensures
        refilled(rule, before, after, oracle, slot),
{
    assert forall|market_type: MarketType, market_index: u16| #[trigger]
        after.has_market(market_type, market_index) == before.has_market(
        market_type,
        market_index,
    ) by {
        assert(between.has_market(market_type, market_index) == before.has_market(
            market_type,
            market_index,
        ));
    }
    assert forall|place: Place| #[trigger] after.queue(place).len() == before.queue(
        place,
    ).len() by {
        assert(between.queue(place).len() == before.queue(place).len());
    }
    assert forall|place: Place, n: Node| #[trigger]
        before.has(place) && #[trigger] after.queue(place).contains(n) implies before.queue(
        place,
    ).contains(n) || (can_match(rule, n, oracle, slot) && has_node_of(
        before.queue(place),
        n.user_account,
    )) by {
        assert(between.has(place));
        if between.queue(place).contains(n) {
        } else {
            let m = choose|m: Node| #[trigger]
                between.queue(place).contains(m) && m.user_account == n.user_account;
            if before.queue(place).contains(m) {
                assert(has_node_of(before.queue(place), n.user_account));
            }
        }
    }
}

/// What matches by any rule can have made of a book, matches by takers can.
pub proof fn lemma_refilled_by_taking(
    rule: MatchRule,
    taking: MatchRule,
    before: BookView,
    after: BookView,
    oracle: OraclePriceData,
    slot: u64,
)
    requires
        taking is Taking,
        refilled(rule, before, after, oracle, slot),
    ensures
        refilled(taking, before, after, oracle, slot),
{
}

/// Updating an order changes at most the queue in which it belongs, and there
/// at most a node of the same account.
pub proof fn lemma_updated(
    before: BookView,
    order: Order,
    user_account: Pubkey,
    slot: u64,
    after: BookView,
)
    requires
        before.sound(),
        before.has_market(order.market_type, order.market_index),
        text_spells(user_account),
        order_updated(before, order, user_account, slot, after),
    ensures
        after.sound(),
        same_shape(before, after),
        forall|place: Place, n: Node| #[trigger]
            after.queue(place).contains(n) ==> before.queue(place).contains(n) || (n == (Node {
                order,
                user_account,
            }) && has_node_of(before.queue(place), user_account)),
{
    let place = order_place(order, slot);
    let node = Node { order, user_account };
    lemma_order_updated_is_sound(before, order, user_account, slot, after);
    lemma_with_queue(before, place, after.queue(place));
    assert forall|market_type: MarketType, market_index: u16| #[trigger]
        after.has_market(market_type, market_index) == before.has_market(
        market_type,
        market_index,
    ) by {
        let p = Place { market_type, market_index, ..place };
        assert(after.has(p) == before.has(p));
    }
    assert forall|p: Place| #[trigger] after.queue(p).len() == before.queue(p).len() by {
        if p != place {
            assert(after.queue(p) == before.queue(p));
        }
    }
    assert forall|p: Place, n: Node| #[trigger] after.queue(p).contains(n) implies before.queue(
        p,
    ).contains(n) || (n == node && has_node_of(before.queue(p), user_account)) by {
        if p != place {
            assert(after.queue(p) == before.queue(p));
        } else if !before.queue(p).contains(n) {
            let queue = before.queue(place);
            let i = choose|i: int|
                0 <= i < queue.len() && (#[trigger] queue[i]).signature() == node.signature();
            assert(before.has(place) && queue.contains(queue[i]));
            assert(before.admits(place, queue[i]));
            lemma_signature_is_injective(
                queue[i].order.order_id,
                queue[i].user_account,
                order.order_id,
                user_account,
            );
        }
    }
}

proof fn lemma_more_filled(
    rule: MatchRule,
    node: Node,
    other: Order,
    oracle: OraclePriceData,
    slot: u64,
)
    requires
        can_match(rule, node, oracle, slot),
        other.within_size(),
    ensures
        can_match(rule, more_filled(node, base_filled(node.order, other)), oracle, slot),
        can_match(rule, more_filled(node, base_filled(other, node.order)), oracle, slot),
{
    let a = more_filled(node, base_filled(node.order, other));
    let b = more_filled(node, base_filled(other, node.order));
    lemma_price_ignores_fills(a.order, node.order, oracle, slot, None);
    lemma_price_ignores_fills(b.order, node.order, oracle, slot, None);
}

/// Filling a maker and a node that have prices is a match.
pub proof fn lemma_pair_filled(
    rule: MatchRule,
    before: BookView,
    maker: Node,
    node: Node,
    oracle: OraclePriceData,
    slot: u64,
    after: BookView,
)
    requires
        before.sound(),
        before.has_market(maker.order.market_type, maker.order.market_index),
        before.has_market(node.order.market_type, node.order.market_index),
        text_spells(maker.user_account),
        text_spells(node.user_account),
        can_match(rule, maker, oracle, slot),
        can_match(rule, node, oracle, slot),
        pair_filled(before, maker, node, slot, after),
    ensures
        after.sound(),
        refilled(rule, before, after, oracle, slot),
{
    let base = base_filled(maker.order, node.order);
    let filled_maker = maker.order.with_more_filled(base);
    let filled_node = node.order.with_more_filled(base);
    let between = choose|between: BookView| #[trigger]
        order_updated(before, filled_maker, maker.user_account, slot, between) && order_updated(
            between,
            filled_node,
            node.user_account,
            slot,
            after,
        );
    lemma_more_filled(rule, maker, node.order, oracle, slot);
    lemma_more_filled(rule, node, maker.order, oracle, slot);
    lemma_updated(before, filled_maker, maker.user_account, slot, between);
    assert(between.has_market(filled_node.market_type, filled_node.market_index));
    lemma_updated(between, filled_node, node.user_account, slot, after);
    assert(more_filled(maker, base) == (Node {
        order: filled_maker,
        user_account: maker.user_account,
    }));
    assert(more_filled(node, base) == (Node {
        order: filled_node,
        user_account: node.user_account,
    }));
    lemma_refilled_again(rule, before, between, after, oracle, slot);
}

/// A side with at most one maker has at most one quote.
pub proof fn lemma_few_quotes(book: BookView, side: Side, slot: u64)
    requires
        slot <= book.max_slot,
        book.queue(side.of(NodeType::RestingLimit)).len() + book.queue(
            side.of(NodeType::FloatingLimit),
        ).len() <= 1,
    ensures
        at_most_one_quote(book, side, slot),
{
    let resting = book.queue(side.of(NodeType::RestingLimit));
    assert forall|a: Node, b: Node| #[trigger]
        will_rest(book, side, slot, a) && #[trigger] will_rest(book, side, slot, b) implies a
        == b by {
        let i = choose|i: int| 0 <= i < resting.len() && resting[i] == a;
        let j = choose|j: int| 0 <= j < resting.len() && resting[j] == b;
    }
}

} // verus!
