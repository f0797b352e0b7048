//! What it takes, order by order, for a market to be searched for orders to fill.
//! Where no order stands in two queues of a side, matches change nothing of that.

use vstd::prelude::*;

use crate::dlob::book::{lemma_with_queue, order_place, order_updated, BookView, Place};
use crate::dlob::market::direction_side;
use crate::dlob::matching::{
    all_filled, all_matched, base_filled, lemma_matched_are_pairs, matched, node_matched,
    pair_filled, shuns_fallback, MatchRule,
};
use crate::dlob::node::{Fill, Node, NodeType, SubType};
use crate::dlob::quotes::{
    at_most_one_quote, lemma_at_most_one_quote, lemma_quotes_are_quoted, quotes, quotes_priced,
    quotes_sortable, slot_rank, takers, will_quote, Side,
};
use crate::dlob::readiness::{
    asks_can_cross, can_compare, crossing_ready, lemma_few_quotes, lemma_updated, node_can_match,
    nodes_can_match, nodes_meet_fallback, same_shape,
};
use crate::dlob::resting::{brought_to, lemma_brought_to_is_sound};
use crate::dlob::search::{
    asks_can_take, bids_can_take, crossing_found, expiries_in_range, fill_ready, live_ready,
    quotes_meet_fallback, rebate_in_range, resting_found, resting_ready, takers_meet_fallback,
    taking_ready, FillSearch,
};
use crate::dlob::sorting::lemma_rank_sorted;
use crate::math::order::lemma_price_ignores_fills;
use crate::pubkey::{text_spells, Pubkey};
use crate::types::{MarketType, OraclePriceData, Order};

verus! {

/// Whether no order stands in two queues of a side of a market. The trigger lists
/// do not count.
pub open spec fn listed_once(book: BookView, side: Side) -> bool {
    forall|a: NodeType, b: NodeType, m: Node, n: Node|
        a != NodeType::Trigger && b != NodeType::Trigger && #[trigger] book.queue(
            side.of(a),
        ).contains(m) && #[trigger] book.queue(side.of(b)).contains(n) && m.signature()
            == n.signature() ==> a == b
}

/// Whether each of the nodes can be held against each of the makers, and neither is
/// filled beyond its size where the rule pairs them.
pub open spec fn pairs_ready(
    rule: MatchRule,
    nodes: Seq<Node>,
    makers: Seq<Node>,
    oracle: OraclePriceData,
    slot: u64,
) -> bool {
    forall|n: Node, m: Node| #[trigger]
        nodes.contains(n) && #[trigger] makers.contains(m) ==> can_compare(
            rule,
            n,
            m,
            oracle,
            slot,
        ) && (rule.pairs(n, m, oracle, slot) ==> n.order.within_size() && m.order.within_size())
}

/// Whether the orders of a market, in a book that was brought to the slot, can be
/// searched for ones to fill: every pair that is looked at can be compared, and the
/// orders of every pair that matches are within their sizes.
pub open spec fn orders_ready(search: FillSearch, book: BookView) -> bool {
    let oracle = search.oracle;
    let slot = search.slot;
    let asks = quotes(book, search.asks(), oracle, slot);
    let bids = quotes(book, search.bids(), oracle, slot);
    let asks_taking = takers(book, search.asks());
    let bids_taking = takers(book, search.bids());
    &&& book.has_market(search.market_type, search.market_index)
    &&& listed_once(book, search.asks())
    &&& listed_once(book, search.bids())
    &&& forall|a: Node| #[trigger] asks.contains(a) ==> a.priced(oracle, slot)
    &&& pairs_ready(MatchRule::Crossing, asks, bids, oracle, slot)
    &&& quotes_meet_fallback(search, book)
    &&& asks_taking.len() > 0 ==> quotes_sortable(book, search.bids(), oracle, slot)
    &&& pairs_ready(search.ask_rule(), asks_taking, bids, oracle, slot)
    &&& pairs_ready(search.bid_rule(), bids_taking, asks, oracle, slot)
    &&& takers_meet_fallback(search, book)
}

/// Whether `after` is `before` but for the amount filled, which may have grown
/// within the size.
pub open spec fn alike(before: Node, after: Node) -> bool {
    &&& after.user_account == before.user_account
    &&& after.order.same_terms(before.order)
    &&& before.order.within_size() ==> after.order.within_size()
}

/// Whether one of the nodes is `node` but for the amount filled.
pub open spec fn stands_for(nodes: Seq<Node>, node: Node) -> bool {
    exists|n: Node| #[trigger] nodes.contains(n) && alike(n, node)
}

/// Whether each of the `later` nodes is one of the `earlier` but for the amount
/// filled.
pub open spec fn all_stand_for(earlier: Seq<Node>, later: Seq<Node>) -> bool {
    forall|n: Node| #[trigger] later.contains(n) ==> stands_for(earlier, n)
}

/// Whether a place is one of a market, outside its trigger list.
pub open spec fn in_market(search: FillSearch, place: Place) -> bool {
    &&& place.market_type == search.market_type
    &&& place.market_index == search.market_index
    &&& place.node_type != NodeType::Trigger
}

/// Whether the queues of the market differ in no more than the amounts filled.
pub open spec fn steady(search: FillSearch, before: BookView, after: BookView) -> bool {
    &&& same_shape(before, after)
    &&& forall|place: Place| #[trigger]
        in_market(search, place) ==> all_stand_for(before.queue(place), after.queue(place))
}

/// Whether a node is one of the market.
pub open spec fn is_of_market(search: FillSearch, book: BookView, node: Node) -> bool {
    exists|place: Place| #[trigger]
        in_market(search, place) && book.queue(place).contains(node)
}

proof fn lemma_alike(before: Node, after: Node, oracle: OraclePriceData, slot: u64)
    requires
        alike(before, after),
    ensures
        after.signature() == before.signature(),
        after.price(oracle, slot) == before.price(oracle, slot),
        after.priced(oracle, slot) == before.priced(oracle, slot),
        after.order.direction == before.order.direction,
        after.order.market_type == before.order.market_type,
        after.order.market_index == before.order.market_index,
        after.order.post_only == before.order.post_only,
        after.order.slot == before.order.slot,
        after.order.auction_duration == before.order.auction_duration,
{
    lemma_price_ignores_fills(after.order, before.order, oracle, slot, None);
}

proof fn lemma_pairs_stay_ready(
    rule: MatchRule,
    nodes: Seq<Node>,
    makers: Seq<Node>,
    later_nodes: Seq<Node>,
    later_makers: Seq<Node>,
    oracle: OraclePriceData,
    slot: u64,
)
    requires
        pairs_ready(rule, nodes, makers, oracle, slot),
        all_stand_for(nodes, later_nodes),
        all_stand_for(makers, later_makers),
    ensures
        pairs_ready(rule, later_nodes, later_makers, oracle, slot),
{
    assert forall|n: Node, m: Node| #[trigger]
        later_nodes.contains(n) && #[trigger] later_makers.contains(m) implies can_compare(
        rule,
        n,
        m,
        oracle,
        slot,
    ) && (rule.pairs(n, m, oracle, slot) ==> n.order.within_size() && m.order.within_size()) by {
        let a = choose|a: Node| #[trigger] nodes.contains(a) && alike(a, n);
        let b = choose|b: Node| #[trigger] makers.contains(b) && alike(b, m);
        lemma_alike(a, n, oracle, slot);
        lemma_alike(b, m, oracle, slot);
        assert(nodes.contains(a) && makers.contains(b));
        assert(rule.pairs(a, b, oracle, slot) == rule.pairs(n, m, oracle, slot));
    }
}

proof fn lemma_stand_for_themselves(nodes: Seq<Node>)
    ensures
        all_stand_for(nodes, nodes),
{
    assert forall|n: Node| #[trigger] nodes.contains(n) implies stands_for(nodes, n) by {
        assert(alike(n, n));
    }
}

proof fn lemma_steady_at_first(search: FillSearch, book: BookView)
    ensures
        steady(search, book, book),
{
    assert forall|place: Place| #[trigger] in_market(search, place) implies all_stand_for(
        book.queue(place),
        book.queue(place),
    ) by {
        lemma_stand_for_themselves(book.queue(place));
    }
}

proof fn lemma_sides(search: FillSearch, book: BookView, side: Side, n: Node)
    requires
        book.sound(),
        search.slot <= book.max_slot,
        book.has_market(search.market_type, search.market_index),
        side == search.asks() || side == search.bids(),
    ensures
        quotes(book, side, search.oracle, search.slot).contains(n) <==> book.queue(
            side.of(NodeType::RestingLimit),
        ).contains(n) || book.queue(side.of(NodeType::FloatingLimit)).contains(n),
        takers(book, side).contains(n) <==> book.queue(side.of(NodeType::TakingLimit)).contains(n)
            || book.queue(side.of(NodeType::Market)).contains(n),
{
    assert(brought_to(book, search.slot, book));
    lemma_quotes_are_quoted(book, search.slot, book, side, search.oracle);
    assert(quotes(book, side, search.oracle, search.slot).contains(n) <==> will_quote(
        book,
        side,
        search.slot,
        n,
    ));
    let taking = book.queue(side.of(NodeType::TakingLimit));
    let market = book.queue(side.of(NodeType::Market));
    lemma_rank_sorted(taking + market, slot_rank());
    assert((taking + market).contains(n) <==> taking.contains(n) || market.contains(n)) by {
        if taking.contains(n) {
            let i = choose|i: int| 0 <= i < taking.len() && taking[i] == n;
            assert((taking + market)[i] == n);
        }
        if market.contains(n) {
            let i = choose|i: int| 0 <= i < market.len() && market[i] == n;
            assert((taking + market)[taking.len() + i] == n);
        }
    }
}

/// Matches leave the makers and the takers of a side as they are but for the
/// amounts filled.
proof fn lemma_steady_side(search: FillSearch, before: BookView, after: BookView, side: Side)
    requires
        before.sound(),
        after.sound(),
        search.slot <= before.max_slot,
        before.has_market(search.market_type, search.market_index),
        side == search.asks() || side == search.bids(),
        steady(search, before, after),
    ensures
        all_stand_for(
            quotes(before, side, search.oracle, search.slot),
            quotes(after, side, search.oracle, search.slot),
        ),
        all_stand_for(takers(before, side), takers(after, side)),
        takers(after, side).len() == takers(before, side).len(),
        quotes_sortable(before, side, search.oracle, search.slot) ==> quotes_sortable(
            after,
            side,
            search.oracle,
            search.slot,
        ),
        listed_once(before, side) ==> listed_once(after, side),
{
    let oracle = search.oracle;
    let slot = search.slot;
    let resting = side.of(NodeType::RestingLimit);
    let floating = side.of(NodeType::FloatingLimit);
    let taking = side.of(NodeType::TakingLimit);
    let market = side.of(NodeType::Market);
    assert(after.has_market(search.market_type, search.market_index));
    assert(in_market(search, resting) && in_market(search, floating) && in_market(search, taking)
        && in_market(search, market));
    assert forall|n: Node| #[trigger] quotes(after, side, oracle, slot).contains(
        n,
    ) implies stands_for(quotes(before, side, oracle, slot), n) by {
        lemma_sides(search, after, side, n);
        let place = if after.queue(resting).contains(n) {
            resting
        } else {
            floating
        };
        assert(stands_for(before.queue(place), n));
        let o = choose|o: Node| #[trigger] before.queue(place).contains(o) && alike(o, n);
        lemma_sides(search, before, side, o);
        assert(quotes(before, side, oracle, slot).contains(o));
    }
    assert forall|n: Node| #[trigger] takers(after, side).contains(n) implies stands_for(
        takers(before, side),
        n,
    ) by {
        lemma_sides(search, after, side, n);
        let place = if after.queue(taking).contains(n) {
            taking
        } else {
            market
        };
        assert(stands_for(before.queue(place), n));
        let o = choose|o: Node| #[trigger] before.queue(place).contains(o) && alike(o, n);
        lemma_sides(search, before, side, o);
        assert(takers(before, side).contains(o));
    }
    lemma_rank_sorted(before.queue(taking) + before.queue(market), slot_rank());
    lemma_rank_sorted(after.queue(taking) + after.queue(market), slot_rank());
    assert(after.queue(taking).len() == before.queue(taking).len());
    assert(after.queue(market).len() == before.queue(market).len());
    if at_most_one_quote(before, side, slot) {
        assert(brought_to(before, slot, before));
        lemma_at_most_one_quote(before, slot, before, side);
        assert(after.queue(resting).len() == before.queue(resting).len());
        assert(after.queue(floating).len() == before.queue(floating).len());
        lemma_few_quotes(after, side, slot);
    }
    if quotes_priced(before, side, oracle, slot) {
        assert forall|n: Node| #[trigger] will_quote(after, side, slot, n) implies n.priced(
            oracle,
            slot,
        ) by {
            let place = if after.queue(resting).contains(n) {
                resting
            } else {
                floating
            };
            assert(stands_for(before.queue(place), n));
            let o = choose|o: Node| #[trigger] before.queue(place).contains(o) && alike(o, n);
            assert(will_quote(before, side, slot, o));
            lemma_alike(o, n, oracle, slot);
        }
    }
    if listed_once(before, side) {
        assert forall|a: NodeType, b: NodeType, m: Node, n: Node|
            a != NodeType::Trigger && b != NodeType::Trigger && #[trigger] after.queue(
                side.of(a),
            ).contains(m) && #[trigger] after.queue(side.of(b)).contains(n) && m.signature()
                == n.signature() implies a == b by {
            assert(in_market(search, side.of(a)) && in_market(search, side.of(b)));
            assert(stands_for(before.queue(side.of(a)), m));
            assert(stands_for(before.queue(side.of(b)), n));
            let x = choose|x: Node| #[trigger]
                before.queue(side.of(a)).contains(x) && alike(x, m);
            let y = choose|y: Node| #[trigger]
                before.queue(side.of(b)).contains(y) && alike(y, n);
            lemma_alike(x, m, oracle, slot);
            lemma_alike(y, n, oracle, slot);
            assert(before.queue(side.of(a)).contains(x) && before.queue(side.of(b)).contains(y));
        }
    }
}

/// What could be searched order by order still can be after matches.
proof fn lemma_orders_stay_ready(search: FillSearch, before: BookView, after: BookView)
    requires
        before.sound(),
        after.sound(),
        search.slot <= before.max_slot,
        orders_ready(search, before),
        steady(search, before, after),
    ensures
        orders_ready(search, after),
{
    let oracle = search.oracle;
    let slot = search.slot;
    let asks = quotes(before, search.asks(), oracle, slot);
    let bids = quotes(before, search.bids(), oracle, slot);
    let later_asks = quotes(after, search.asks(), oracle, slot);
    let later_bids = quotes(after, search.bids(), oracle, slot);
    lemma_steady_side(search, before, after, search.asks());
    lemma_steady_side(search, before, after, search.bids());
    lemma_pairs_stay_ready(
        MatchRule::Crossing,
        asks,
        bids,
        later_asks,
        later_bids,
        oracle,
        slot,
    );
    lemma_pairs_stay_ready(
        search.ask_rule(),
        takers(before, search.asks()),
        bids,
        takers(after, search.asks()),
        later_bids,
        oracle,
        slot,
    );
    lemma_pairs_stay_ready(
        search.bid_rule(),
        takers(before, search.bids()),
        asks,
        takers(after, search.bids()),
        later_asks,
        oracle,
        slot,
    );
    assert forall|a: Node| #[trigger] later_asks.contains(a) implies a.priced(oracle, slot) by {
        assert(stands_for(asks, a));
        let o = choose|o: Node| #[trigger] asks.contains(o) && alike(o, a);
        lemma_alike(o, a, oracle, slot);
    }
    lemma_fallback_stays_met(search, asks, later_asks);
    lemma_fallback_stays_met(search, bids, later_bids);
    lemma_fallback_stays_met(search, takers(before, search.asks()), takers(after, search.asks()));
    lemma_fallback_stays_met(search, takers(before, search.bids()), takers(after, search.bids()));
    assert(after.has_market(search.market_type, search.market_index));
}

proof fn lemma_fallback_stays_met(search: FillSearch, nodes: Seq<Node>, later: Seq<Node>)
    requires
        all_stand_for(nodes, later),
    ensures
        nodes_meet_fallback(search.market_type, nodes, search.oracle, search.slot)
            ==> nodes_meet_fallback(search.market_type, later, search.oracle, search.slot),
{
    if nodes_meet_fallback(search.market_type, nodes, search.oracle, search.slot) {
        assert forall|n: Node| #[trigger] later.contains(n) implies shuns_fallback(
            search.market_type,
            n,
        ) || n.priced(search.oracle, search.slot) by {
            assert(stands_for(nodes, n));
            let o = choose|o: Node| #[trigger] nodes.contains(o) && alike(o, n);
            lemma_alike(o, n, search.oracle, search.slot);
        }
    }
}

/// Updating the amount filled of an order of the market keeps its queues steady.
proof fn lemma_update_is_steady(
    search: FillSearch,
    base: BookView,
    book: BookView,
    place: Place,
    origin: Node,
    order: Order,
    user_account: Pubkey,
    after: BookView,
)
    requires
        base.sound(),
        book.sound(),
        base.has_market(search.market_type, search.market_index),
        listed_once(base, search.asks()),
        listed_once(base, search.bids()),
        steady(search, base, book),
        in_market(search, place),
        base.queue(place).contains(origin),
        alike(origin, Node { order, user_account }),
        book.has_market(order.market_type, order.market_index),
        text_spells(user_account),
        order_updated(book, order, user_account, search.slot, after),
    ensures
        after.sound(),
        steady(search, base, after),
{
    let node = Node { order, user_account };
    let home = order_place(order, search.slot);
    lemma_updated(book, order, user_account, search.slot, after);
    lemma_with_queue(book, home, after.queue(home));
    lemma_alike(origin, node, search.oracle, search.slot);
    assert(base.has(place));
    assert(base.admits(place, origin));
    lemma_same_shape_again(base, book, after);
    assert forall|p: Place| #[trigger] in_market(search, p) implies all_stand_for(
        base.queue(p),
        after.queue(p),
    ) by {
        assert forall|n: Node| #[trigger] after.queue(p).contains(n) implies stands_for(
            base.queue(p),
            n,
        ) by {
            if book.queue(p).contains(n) {
                assert(stands_for(base.queue(p), n));
            } else {
                if p != home {
                    assert(after.queue(p) == book.queue(p));
                }
                let queue = book.queue(home);
                let i = choose|i: int|
                    0 <= i < queue.len() && (#[trigger] queue[i]).signature() == node.signature();
                assert(queue.contains(queue[i]));
                assert(stands_for(base.queue(home), queue[i]));
                let twin = choose|twin: Node| #[trigger]
                    base.queue(home).contains(twin) && alike(twin, queue[i]);
                lemma_alike(twin, queue[i], search.oracle, search.slot);
                let side = if home.sub_type == SubType::Ask {
                    search.asks()
                } else {
                    search.bids()
                };
                assert(home.sub_type == direction_side(order.direction));
                assert(home == side.of(home.node_type));
                assert(place == side.of(place.node_type));
                assert(base.queue(side.of(home.node_type)).contains(twin) && base.queue(
                    side.of(place.node_type),
                ).contains(origin));
                assert(home == place);
                assert(n == node);
            }
        }
    }
}

proof fn lemma_same_shape_again(before: BookView, between: BookView, after: BookView)
    requires
        same_shape(before, between),
        same_shape(between, after),
    ensures
        same_shape(before, after),
{
    assert forall|market_type: MarketType, market_index: u16| #[trigger]
        after.has_market(market_type, market_index) == before.has_market(
        market_type,
        market_index,
    ) by {
        assert(between.has_market(market_type, market_index) == before.has_market(
            market_type,
            market_index,
        ));
    }
    assert forall|place: Place| #[trigger] after.queue(place).len() == before.queue(
        place,
    ).len() by {
        assert(between.queue(place).len() == before.queue(place).len());
    }
}

/// Whether a node is one of the market in `base` but for the amount filled, within
/// its size, and belongs in a market that is there.
pub open spec fn can_fill(search: FillSearch, base: BookView, node: Node) -> bool {
    &&& exists|place: Place, origin: Node|
        in_market(search, place) && #[trigger] base.queue(place).contains(origin) && alike(
            origin,
            node,
        )
    &&& node.order.within_size()
    &&& base.has_market(node.order.market_type, node.order.market_index)
    &&& text_spells(node.user_account)
}

proof fn lemma_fill_is_steady(
    search: FillSearch,
    base: BookView,
    book: BookView,
    node: Node,
    base_amount: int,
    after: BookView,
)
    requires
        base.sound(),
        book.sound(),
        base.has_market(search.market_type, search.market_index),
        listed_once(base, search.asks()),
        listed_once(base, search.bids()),
        steady(search, base, book),
        can_fill(search, base, node),
        0 <= base_amount <= node.order.base_remaining(),
        order_updated(
            book,
            node.order.with_more_filled(base_amount),
            node.user_account,
            search.slot,
            after,
        ),
    ensures
        after.sound(),
        steady(search, base, after),
{
    let (place, origin) = choose|place: Place, origin: Node|
        in_market(search, place) && #[trigger] base.queue(place).contains(origin) && alike(
            origin,
            node,
        );
    let order = node.order.with_more_filled(base_amount);
    assert(alike(origin, Node { order, user_account: node.user_account }));
    assert(book.has_market(order.market_type, order.market_index));
    lemma_update_is_steady(
        search,
        base,
        book,
        place,
        origin,
        order,
        node.user_account,
        after,
    );
}

proof fn lemma_fills_are_steady(
    search: FillSearch,
    base: BookView,
    book: BookView,
    node: Node,
    makers: Seq<Node>,
    after: BookView,
)
    requires
        base.sound(),
        book.sound(),
        base.has_market(search.market_type, search.market_index),
        listed_once(base, search.asks()),
        listed_once(base, search.bids()),
        steady(search, base, book),
        makers.len() > 0 ==> can_fill(search, base, node),
        forall|i: int| 0 <= i < makers.len() ==> can_fill(search, base, #[trigger] makers[i]),
        all_filled(book, node, makers, search.slot, after),
    ensures
        after.sound(),
        steady(search, base, after),
    decreases makers.len(),
{
    if makers.len() > 0 {
        let rest = makers.drop_last();
        let maker = makers.last();
        let between = choose|between: BookView|
            all_filled(book, node, rest, search.slot, between) && #[trigger] pair_filled(
                between,
                maker,
                node,
                search.slot,
                after,
            );
        assert forall|i: int| 0 <= i < rest.len() implies can_fill(
            search,
            base,
            #[trigger] rest[i],
        ) by {
            assert(rest[i] == makers[i]);
        }
        lemma_fills_are_steady(search, base, book, node, rest, between);
        assert(can_fill(search, base, makers[makers.len() - 1]));
        let amount = base_filled(maker.order, node.order);
        let middle = choose|middle: BookView| #[trigger]
            order_updated(
                between,
                maker.order.with_more_filled(amount),
                maker.user_account,
                search.slot,
                middle,
            ) && order_updated(
                middle,
                node.order.with_more_filled(amount),
                node.user_account,
                search.slot,
                after,
            );
        lemma_fill_is_steady(search, base, between, maker, amount, middle);
        lemma_fill_is_steady(search, base, middle, node, amount, after);
    }
}

proof fn lemma_matched_can_fill(
    search: FillSearch,
    rule: MatchRule,
    base: BookView,
    side: Side,
    nodes: Seq<Node>,
    book: BookView,
    node: Node,
)
    requires
        base.sound(),
        book.sound(),
        search.slot <= base.max_slot,
        base.has_market(search.market_type, search.market_index),
        side == search.asks() || side == search.bids(),
        steady(search, base, book),
        nodes.contains(node),
        is_of_market(search, base, node),
        pairs_ready(
            rule,
            nodes,
            quotes(base, side, search.oracle, search.slot),
            search.oracle,
            search.slot,
        ),
    ensures
        ({
            let pairs = matched(
                rule,
                node,
                quotes(book, side, search.oracle, search.slot),
                search.oracle,
                search.slot,
            );
            &&& pairs.len() > 0 ==> can_fill(search, base, node)
            &&& forall|i: int| 0 <= i < pairs.len() ==> can_fill(search, base, #[trigger] pairs[i])
        }),
{
    let oracle = search.oracle;
    let slot = search.slot;
    let makers = quotes(book, side, oracle, slot);
    let pairs = matched(rule, node, makers, oracle, slot);
    lemma_matched_are_pairs(rule, node, makers, oracle, slot);
    assert(all_stand_for(quotes(base, side, oracle, slot), makers)) by {
        lemma_steady_side(search, base, book, side);
    }
    assert(pairs_ready(rule, nodes, makers, oracle, slot)) by {
        lemma_stand_for_themselves(nodes);
        lemma_pairs_stay_ready(
            rule,
            nodes,
            quotes(base, side, oracle, slot),
            nodes,
            makers,
            oracle,
            slot,
        );
    }
    let home = choose|place: Place| #[trigger]
        in_market(search, place) && base.queue(place).contains(node);
    assert(base.has(home));
    assert(base.admits(home, node));
    assert(alike(node, node));
    assert forall|i: int| 0 <= i < pairs.len() implies can_fill(search, base, #[trigger] pairs[i])
        && node.order.within_size() by {
        let maker = pairs[i];
        assert(nodes.contains(node) && makers.contains(maker));
        lemma_sides(search, book, side, maker);
        let resting = side.of(NodeType::RestingLimit);
        let floating = side.of(NodeType::FloatingLimit);
        let place = if book.queue(resting).contains(maker) {
            resting
        } else {
            floating
        };
        assert(in_market(search, place));
        assert(stands_for(base.queue(place), maker));
        assert(book.has(place));
        assert(book.admits(place, maker));
        assert(base.has_market(maker.order.market_type, maker.order.market_index)
            == book.has_market(maker.order.market_type, maker.order.market_index));
    }
    if pairs.len() > 0 {
        assert(can_fill(search, base, pairs[0]));
    }
}

/// Matching nodes of the market with its makers keeps its queues steady.
proof fn lemma_matching_is_steady(
    search: FillSearch,
    rule: MatchRule,
    base: BookView,
    side: Side,
    nodes: Seq<Node>,
    after: BookView,
    out: Seq<Fill>,
)
    requires
        base.sound(),
        search.slot <= base.max_slot,
        base.has_market(search.market_type, search.market_index),
        listed_once(base, search.asks()),
        listed_once(base, search.bids()),
        side == search.asks() || side == search.bids(),
        forall|n: Node| #[trigger] nodes.contains(n) ==> is_of_market(search, base, n),
        pairs_ready(
            rule,
            nodes,
            quotes(base, side, search.oracle, search.slot),
            search.oracle,
            search.slot,
        ),
        all_matched(rule, base, side, nodes, search.oracle, search.slot, after, out),
    ensures
        after.sound(),
        steady(search, base, after),
    decreases nodes.len(),
{
    let oracle = search.oracle;
    let slot = search.slot;
    if nodes.len() == 0 {
        lemma_steady_at_first(search, base);
    } else {
        let node = nodes.last();
        let rest = nodes.drop_last();
        let (book, so_far) = choose|book: BookView, so_far: Seq<Fill>|
            all_matched(rule, base, side, rest, oracle, slot, book, so_far)
                && #[trigger] node_matched(
                rule,
                book,
                so_far,
                side,
                node,
                oracle,
                slot,
                after,
                out,
            );
        assert forall|n: Node| #[trigger] rest.contains(n) implies nodes.contains(n) by {
            let i = choose|i: int| 0 <= i < rest.len() && rest[i] == n;
            assert(nodes[i] == n);
        }
        lemma_matching_is_steady(search, rule, base, side, rest, book, so_far);
        let pairs = matched(rule, node, quotes(book, side, oracle, slot), oracle, slot);
        assert(nodes.contains(node));
        lemma_matched_can_fill(search, rule, base, side, nodes, book, node);
        lemma_fills_are_steady(search, base, book, node, pairs, after);
    }
}

/// Nodes of the market whose pairs with the makers of a side are ready can be
/// matched with these in turn.
proof fn lemma_ready_pairs_can_match(
    search: FillSearch,
    rule: MatchRule,
    base: BookView,
    side: Side,
    nodes: Seq<Node>,
)
    requires
        base.sound(),
        search.slot <= base.max_slot,
        base.has_market(search.market_type, search.market_index),
        listed_once(base, search.asks()),
        listed_once(base, search.bids()),
        side == search.asks() || side == search.bids(),
        nodes.len() > 0 ==> quotes_sortable(base, side, search.oracle, search.slot),
        forall|n: Node| #[trigger] nodes.contains(n) ==> is_of_market(search, base, n),
        pairs_ready(
            rule,
            nodes,
            quotes(base, side, search.oracle, search.slot),
            search.oracle,
            search.slot,
        ),
    ensures
        nodes_can_match(rule, base, side, nodes, search.oracle, search.slot),
{
    let oracle = search.oracle;
    let slot = search.slot;
    assert forall|k: int, between: BookView, so_far: Seq<Fill>|
        0 <= k < nodes.len() && #[trigger] all_matched(
            rule,
            base,
            side,
            nodes.take(k),
            oracle,
            slot,
            between,
            so_far,
        ) implies node_can_match(rule, between, side, nodes[k], oracle, slot) by {
        let first = nodes.take(k);
        assert forall|n: Node| #[trigger] first.contains(n) implies nodes.contains(n) by {
            let i = choose|i: int| 0 <= i < first.len() && first[i] == n;
            assert(nodes[i] == n);
        }
        lemma_matching_is_steady(search, rule, base, side, first, between, so_far);
        lemma_steady_side(search, base, between, side);
        lemma_stand_for_themselves(nodes);
        let makers = quotes(between, side, oracle, slot);
        lemma_pairs_stay_ready(
            rule,
            nodes,
            quotes(base, side, oracle, slot),
            nodes,
            makers,
            oracle,
            slot,
        );
        assert(nodes.contains(nodes[k]));
        assert(is_of_market(search, base, nodes[k]));
        let home = choose|place: Place| #[trigger]
            in_market(search, place) && base.queue(place).contains(nodes[k]);
        assert(base.has(home));
        assert(base.admits(home, nodes[k]));
        assert(between.has_market(nodes[k].order.market_type, nodes[k].order.market_index));
        assert forall|i: int| 0 <= i < makers.len() implies makers.contains(
            #[trigger] makers[i],
        ) by {}
    }
}

/// The makers and the takers of a side are of the market.
proof fn lemma_sides_are_of_market(search: FillSearch, book: BookView, side: Side)
    requires
        book.sound(),
        search.slot <= book.max_slot,
        book.has_market(search.market_type, search.market_index),
        side == search.asks() || side == search.bids(),
    ensures
        forall|n: Node| #[trigger]
            quotes(book, side, search.oracle, search.slot).contains(n) ==> is_of_market(
                search,
                book,
                n,
            ),
        forall|n: Node| #[trigger]
            takers(book, side).contains(n) ==> is_of_market(search, book, n),
{
    assert forall|n: Node| #[trigger]
        quotes(book, side, search.oracle, search.slot).contains(n) implies is_of_market(
        search,
        book,
        n,
    ) by {
        lemma_sides(search, book, side, n);
        assert(in_market(search, side.of(NodeType::RestingLimit)));
        assert(in_market(search, side.of(NodeType::FloatingLimit)));
    }
    assert forall|n: Node| #[trigger] takers(book, side).contains(n) implies is_of_market(
        search,
        book,
        n,
    ) by {
        lemma_sides(search, book, side, n);
        assert(in_market(search, side.of(NodeType::TakingLimit)));
        assert(in_market(search, side.of(NodeType::Market)));
    }
}

proof fn lemma_asks_can_cross(search: FillSearch, book: BookView)
    requires
        book.sound(),
        search.slot <= book.max_slot,
        orders_ready(search, book),
    ensures
        asks_can_cross(book, search.asks(), search.bids(), search.oracle, search.slot),
        forall|after: BookView, out: Seq<Fill>| #[trigger]
            all_matched(
                MatchRule::Crossing,
                book,
                search.bids(),
                quotes(book, search.asks(), search.oracle, search.slot),
                search.oracle,
                search.slot,
                after,
                out,
            ) ==> after.sound() && search.slot <= after.max_slot && orders_ready(search, after),
{
    let oracle = search.oracle;
    let slot = search.slot;
    let asks = quotes(book, search.asks(), oracle, slot);
    lemma_sides_are_of_market(search, book, search.asks());
    if asks.len() > 0 {
        assert forall|b: Node| #[trigger] will_quote(
            book,
            search.bids(),
            slot,
            b,
        ) implies b.priced(oracle, slot) by {
            lemma_sides(search, book, search.bids(), b);
            assert(asks.contains(asks[0]) && quotes(book, search.bids(), oracle, slot).contains(
                b,
            ));
        }
        assert(quotes_priced(book, search.bids(), oracle, slot));
    }
    lemma_ready_pairs_can_match(search, MatchRule::Crossing, book, search.bids(), asks);
    assert forall|after: BookView, out: Seq<Fill>| #[trigger]
        all_matched(
            MatchRule::Crossing,
            book,
            search.bids(),
            asks,
            oracle,
            slot,
            after,
            out,
        ) implies after.sound() && slot <= after.max_slot && orders_ready(search, after) by {
        lemma_matching_is_steady(
            search,
            MatchRule::Crossing,
            book,
            search.bids(),
            asks,
            after,
            out,
        );
        lemma_orders_stay_ready(search, book, after);
    }
}

proof fn lemma_takers_can_match(search: FillSearch, book: BookView)
    requires
        book.sound(),
        search.slot <= book.max_slot,
        orders_ready(search, book),
    ensures
        asks_can_take(search, book),
{
    let oracle = search.oracle;
    let slot = search.slot;
    let asks = takers(book, search.asks());
    lemma_sides_are_of_market(search, book, search.asks());
    lemma_ready_pairs_can_match(search, search.ask_rule(), book, search.bids(), asks);
    assert forall|after: BookView, out: Seq<Fill>| #[trigger]
        all_matched(
            search.ask_rule(),
            book,
            search.bids(),
            asks,
            oracle,
            slot,
            after,
            out,
        ) implies bids_can_take(search, after) by {
        lemma_matching_is_steady(
            search,
            search.ask_rule(),
            book,
            search.bids(),
            asks,
            after,
            out,
        );
        lemma_orders_stay_ready(search, book, after);
        lemma_bids_can_match(search, after);
    }
}

proof fn lemma_bids_can_match(search: FillSearch, book: BookView)
    requires
        book.sound(),
        search.slot <= book.max_slot,
        orders_ready(search, book),
    ensures
        bids_can_take(search, book),
{
    let oracle = search.oracle;
    let slot = search.slot;
    let bids = takers(book, search.bids());
    lemma_sides_are_of_market(search, book, search.bids());
    assert(quotes_priced(book, search.asks(), oracle, slot)) by {
        assert forall|a: Node| #[trigger] will_quote(
            book,
            search.asks(),
            slot,
            a,
        ) implies a.priced(oracle, slot) by {
            lemma_sides(search, book, search.asks(), a);
        }
    }
    lemma_ready_pairs_can_match(search, search.bid_rule(), book, search.asks(), bids);
    assert forall|after: BookView, out: Seq<Fill>| #[trigger]
        all_matched(
            search.bid_rule(),
            book,
            search.asks(),
            bids,
            oracle,
            slot,
            after,
            out,
        ) implies takers_meet_fallback(search, after) by {
        lemma_matching_is_steady(
            search,
            search.bid_rule(),
            book,
            search.asks(),
            bids,
            after,
            out,
        );
        lemma_orders_stay_ready(search, book, after);
    }
}

/// A market whose orders are ready once the book is brought to the slot can be
/// searched for resting orders to fill, and with what these leave for those that
/// take.
pub proof fn lemma_ready_orders_can_be_searched(
    search: FillSearch,
    rebate: (u64, u64),
    book: BookView,
)
    requires
        book.sound(),
        book.has_market(search.market_type, search.market_index),
        forall|brought: BookView| #[trigger]
            brought_to(book, search.slot, brought) ==> orders_ready(search, brought),
        search.live_bid() matches Some(price) ==> rebate_in_range(price, rebate),
        search.live_ask() matches Some(price) ==> rebate_in_range(price, rebate),
    ensures
        crossing_ready(book, search.asks(), search.bids(), search.oracle, search.slot),
        resting_ready(search, rebate, book),
        taking_ready(search, book),
        live_ready(search, rebate, book),
        expiries_in_range(book.market(search.market_type, search.market_index)) ==> fill_ready(
            search,
            rebate,
            book,
        ),
{
    let oracle = search.oracle;
    let slot = search.slot;
    assert forall|brought: BookView| #[trigger] brought_to(book, slot, brought) implies asks_can_cross(
        brought,
        search.asks(),
        search.bids(),
        oracle,
        slot,
    ) && asks_can_take(search, brought) by {
        lemma_brought_to_is_sound(book, slot, brought);
        lemma_asks_can_cross(search, brought);
        lemma_takers_can_match(search, brought);
    }
    assert forall|after: BookView, out: Seq<Fill>| #[trigger]
        crossing_found(
            search.market_type,
            search.market_index,
            oracle,
            slot,
            book,
            after,
            out,
        ) implies after.sound() && slot <= after.max_slot && orders_ready(search, after) by {
        let brought = choose|brought: BookView| #[trigger]
            brought_to(book, slot, brought) && all_matched(
                MatchRule::Crossing,
                brought,
                search.bids(),
                quotes(brought, search.asks(), oracle, slot),
                oracle,
                slot,
                after,
                out,
            );
        lemma_brought_to_is_sound(book, slot, brought);
        lemma_asks_can_cross(search, brought);
    }
    assert forall|after: BookView, out: Seq<Fill>| #[trigger]
        resting_found(search, rebate, book, after, out) implies taking_ready(search, after) by {
        let crossing = choose|crossing: Seq<Fill>| #[trigger]
            crossing_found(
                search.market_type,
                search.market_index,
                oracle,
                slot,
                book,
                after,
                crossing,
            );
        assert(orders_ready(search, after) && slot <= after.max_slot);
        assert forall|brought: BookView| #[trigger] brought_to(
            after,
            slot,
            brought,
        ) implies asks_can_take(search, brought) by {
            lemma_takers_can_match(search, after);
        }
    }
}

} // verus!
