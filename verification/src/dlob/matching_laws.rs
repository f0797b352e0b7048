//! What holds of matches, of fills by liquidity from outside the book and of expired
//! orders, in terms of the orders at hand.

use vstd::prelude::*;

use crate::dlob::book::{order_updated, BookView};
use crate::dlob::market::MarketView;
use crate::dlob::matching::{
    all_filled, all_matched, base_filled, crosses_fallback, expired_fills, expired_nodes,
    expired_on_side, fallback_fills, fill_alone, fills_with, lemma_matched_are_pairs, matched,
    node_matched, pair_filled, taker_crosses, MatchRule, PriceTest,
};
use crate::dlob::node::{Fill, Node, NodeType, SubType};
use crate::dlob::quotes::{quotes, Side};
use crate::dlob::readiness::can_compare;
use crate::dlob::utils::maker_and_taker;
use crate::math::order::{expired, limit_price};
use crate::types::{MarketType, OraclePriceData, Order};

verus! {

/// Who makes and who takes. Two post-only orders are not matched at all. With one
/// post-only order that one is the second of the pair. Else the second is the order
/// whose auction ends first, counted from the slot in which it was placed, and the
/// ask where both end in one slot. The other order is the first.
pub proof fn lemma_who_makes_and_who_takes(ask: Node, bid: Node)
    ensures
        maker_and_taker(ask, bid) is None <==> ask.order.post_only && bid.order.post_only,
        ask.order.post_only && !bid.order.post_only ==> maker_and_taker(ask, bid) == Some(
            (bid, ask),
        ),
        bid.order.post_only && !ask.order.post_only ==> maker_and_taker(ask, bid) == Some(
            (ask, bid),
        ),
        !ask.order.post_only && !bid.order.post_only && ask.order.slot + ask.order.auction_duration
            <= bid.order.slot + bid.order.auction_duration ==> maker_and_taker(ask, bid) == Some(
            (bid, ask),
        ),
        !ask.order.post_only && !bid.order.post_only && ask.order.slot + ask.order.auction_duration
            > bid.order.slot + bid.order.auction_duration ==> maker_and_taker(ask, bid) == Some(
            (ask, bid),
        ),
{
}

/// When an ask that takes is good for a bid that makes: the bid pays at least what the
/// ask wants and, in a spot market with a fallback bid, at least that.
pub proof fn lemma_taking_ask_crosses(
    market_type: MarketType,
    fallback: Option<u64>,
    taker_price: int,
    maker_price: int,
)
    ensures
        taker_crosses(market_type, SubType::Ask, fallback, taker_price, maker_price) ==> maker_price
            >= taker_price,
        taker_crosses(market_type, SubType::Ask, fallback, taker_price, maker_price) && market_type
            == MarketType::Spot ==> (fallback matches Some(bid) ==> maker_price >= bid),
        maker_price >= taker_price && (market_type == MarketType::Perp || fallback is None
            || maker_price >= fallback->0) ==> taker_crosses(
            market_type,
            SubType::Ask,
            fallback,
            taker_price,
            maker_price,
        ),
{
}

/// When a bid that takes is good for an ask that makes: the ask wants at most what the
/// bid pays and, in a spot market with a fallback ask, at most that.
pub proof fn lemma_taking_bid_crosses(
    market_type: MarketType,
    fallback: Option<u64>,
    taker_price: int,
    maker_price: int,
)
    ensures
        taker_crosses(market_type, SubType::Bid, fallback, taker_price, maker_price) ==> maker_price
            <= taker_price,
        taker_crosses(market_type, SubType::Bid, fallback, taker_price, maker_price) && market_type
            == MarketType::Spot ==> (fallback matches Some(ask) ==> maker_price <= ask),
        maker_price <= taker_price && (market_type == MarketType::Perp || fallback is None
            || maker_price <= fallback->0) ==> taker_crosses(
            market_type,
            SubType::Bid,
            fallback,
            taker_price,
            maker_price,
        ),
{
}

/// A better price never stops a maker from matching: a bid that pays more, an ask that
/// wants less.
pub proof fn lemma_better_prices_go_on_matching(
    market_type: MarketType,
    fallback: Option<u64>,
    taker_price: int,
    maker_price: int,
    better: int,
)
    ensures
        taker_crosses(market_type, SubType::Ask, fallback, taker_price, maker_price) && better
            >= maker_price ==> taker_crosses(
            market_type,
            SubType::Ask,
            fallback,
            taker_price,
            better,
        ),
        taker_crosses(market_type, SubType::Bid, fallback, taker_price, maker_price) && better
            <= maker_price ==> taker_crosses(
            market_type,
            SubType::Bid,
            fallback,
            taker_price,
            better,
        ),
{
}

/// The price of a node is that of its order where nothing stands in for a missing limit,
/// and a node has one where its order does.
pub proof fn lemma_price_of_a_node(n: Node, oracle: OraclePriceData, slot: u64)
    ensures
        n.priced(oracle, slot) <==> limit_price(n.order, oracle, slot, None) is Some && 0
            <= limit_price(n.order, oracle, slot, None)->0 <= 0xFFFF_FFFF_FFFF_FFFF,
        n.priced(oracle, slot) ==> Some(n.price(oracle, slot)) == limit_price(
            n.order,
            oracle,
            slot,
            None,
        ),
        n.order.auction_duration == 0 && n.order.oracle_price_offset == 0 ==> (n.priced(
            oracle,
            slot,
        ) <==> n.order.price > 0),
        n.order.auction_duration == 0 && n.order.oracle_price_offset == 0 && n.order.price > 0
            ==> n.price(oracle, slot) == n.order.price,
{
}

/// Which orders a search pairs. They are of two accounts. A resting ask meets the bids
/// that pay at least its price, unless both are post-only. An ask that takes meets the
/// bids that pay at least its price and, in a spot market, at least the fallback bid.
/// A bid that takes meets the asks that want at most its price and, in a spot market,
/// at most the fallback ask.
pub proof fn lemma_which_orders_pair(
    market_type: MarketType,
    fallback: Option<u64>,
    node: Node,
    maker: Node,
    oracle: OraclePriceData,
    slot: u64,
)
    ensures
        MatchRule::Crossing.pairs(node, maker, oracle, slot) <==> {
            &&& node.user_account != maker.user_account
            &&& node.price(oracle, slot) <= maker.price(oracle, slot)
            &&& !(node.order.post_only && maker.order.post_only)
        },
        (MatchRule::Taking { market_type, taker_side: SubType::Ask, fallback }).pairs(
            node,
            maker,
            oracle,
            slot,
        ) <==> {
            &&& node.user_account != maker.user_account
            &&& node.price(oracle, slot) <= maker.price(oracle, slot)
            &&& market_type == MarketType::Spot && fallback is Some ==> fallback->0
                <= maker.price(oracle, slot)
        },
        (MatchRule::Taking { market_type, taker_side: SubType::Bid, fallback }).pairs(
            node,
            maker,
            oracle,
            slot,
        ) <==> {
            &&& node.user_account != maker.user_account
            &&& node.price(oracle, slot) >= maker.price(oracle, slot)
            &&& market_type == MarketType::Spot && fallback is Some ==> fallback->0
                >= maker.price(oracle, slot)
        },
{
}

/// What it takes to hold two orders against each other. An order that takes and a maker
/// of its own account need no prices, and those of two accounts need nothing but that
/// both have one. Two resting orders must both have one and, where they are of two
/// accounts and cross, auctions that end in slots that there are.
pub proof fn lemma_what_comparing_takes(
    market_type: MarketType,
    taker_side: SubType,
    fallback: Option<u64>,
    node: Node,
    maker: Node,
    oracle: OraclePriceData,
    slot: u64,
)
    ensures
        can_compare(
            MatchRule::Taking { market_type, taker_side, fallback },
            node,
            maker,
            oracle,
            slot,
        ) <==> node.user_account == maker.user_account || (node.priced(oracle, slot)
            && maker.priced(oracle, slot)),
        can_compare(MatchRule::Crossing, node, maker, oracle, slot) <==> node.priced(oracle, slot)
            && maker.priced(oracle, slot) && (node.user_account == maker.user_account
            || node.price(oracle, slot) > maker.price(oracle, slot) || (node.order.slot
            + node.order.auction_duration <= 0xFFFF_FFFF_FFFF_FFFF && maker.order.slot
            + maker.order.auction_duration <= 0xFFFF_FFFF_FFFF_FFFF)),
{
}

/// What a match yields. An order that takes is filled by its maker. Of two resting
/// orders the one whose auction ends first is filled by the other, the ask where both
/// end in one slot; a post-only order is filled by one that is not.
pub proof fn lemma_what_a_match_yields(
    market_type: MarketType,
    taker_side: SubType,
    fallback: Option<u64>,
    node: Node,
    maker: Node,
)
    ensures
        (MatchRule::Taking { market_type, taker_side, fallback }).fill(node, maker).node == node,
        (MatchRule::Taking { market_type, taker_side, fallback }).fill(node, maker).makers
            == seq![maker],
        ({
            let fill = MatchRule::Crossing.fill(node, maker);
            let ask_ends = node.order.slot + node.order.auction_duration;
            let bid_ends = maker.order.slot + maker.order.auction_duration;
            &&& node.order.post_only && !maker.order.post_only ==> fill.node == node
                && fill.makers == seq![maker]
            &&& !node.order.post_only && maker.order.post_only ==> fill.node == maker
                && fill.makers == seq![node]
            &&& !node.order.post_only && !maker.order.post_only && ask_ends <= bid_ends
                ==> fill.node == node && fill.makers == seq![maker]
            &&& !node.order.post_only && !maker.order.post_only && ask_ends > bid_ends
                ==> fill.node == maker && fill.makers == seq![node]
        }),
{
}

/// No maker is missed: one that the rule pairs with the node fills it, unless a maker
/// before it in the list could fill the whole of the node.
pub proof fn lemma_no_maker_is_missed(
    rule: MatchRule,
    node: Node,
    makers: Seq<Node>,
    oracle: OraclePriceData,
    slot: u64,
    i: int,
)
    requires
        0 <= i < makers.len(),
        rule.pairs(node, makers[i], oracle, slot),
        forall|k: int|
            0 <= k < i && rule.pairs(node, #[trigger] makers[k], oracle, slot)
                ==> makers[k].order.base_asset_amount - makers[k].order.base_asset_amount_filled
                < node.order.base_asset_amount - node.order.base_asset_amount_filled,
    ensures
        matched(rule, node, makers, oracle, slot).contains(makers[i]),
    decreases makers.len(),
{
    let rest = makers.drop_last();
    let so_far = matched(rule, node, rest, oracle, slot);
    let all = matched(rule, node, makers, oracle, slot);
    if i < rest.len() {
        assert(rest[i] == makers[i]);
        assert forall|k: int|
            0 <= k < i && rule.pairs(
                node,
                #[trigger] rest[k],
                oracle,
                slot,
            ) implies rest[k].order.base_asset_amount - rest[k].order.base_asset_amount_filled
            < node.order.base_asset_amount - node.order.base_asset_amount_filled by {
            assert(rest[k] == makers[k]);
        }
        lemma_no_maker_is_missed(rule, node, rest, oracle, slot, i);
        let j = choose|j: int| 0 <= j < so_far.len() && so_far[j] == makers[i];
        assert(all[j] == makers[i]);
    } else {
        if so_far.len() > 0 {
            lemma_matched_are_pairs(rule, node, rest, oracle, slot);
            let last = so_far.len() - 1;
            assert(rest.contains(so_far[last]));
            let k = choose|k: int| 0 <= k < rest.len() && rest[k] == so_far[last];
            assert(makers[k] == so_far[last]);
        }
        assert(all[all.len() - 1] == makers[i]);
    }
}

/// Nothing but what the rule pairs with the node fills it, and nothing after the first
/// maker that could fill the whole of it. With more makers at hand the ones that filled
/// it before still do, in their order.
pub proof fn lemma_only_pairs_match(
    rule: MatchRule,
    node: Node,
    makers: Seq<Node>,
    more: Node,
    oracle: OraclePriceData,
    slot: u64,
)
    ensures
        matched(rule, node, Seq::<Node>::empty(), oracle, slot).len() == 0,
        ({
            let before = matched(rule, node, makers, oracle, slot);
            let after = matched(rule, node, makers.push(more), oracle, slot);
            &&& !rule.pairs(node, more, oracle, slot) ==> after == before
            &&& before.len() > 0 && before.last().order.base_asset_amount
                - before.last().order.base_asset_amount_filled >= node.order.base_asset_amount
                - node.order.base_asset_amount_filled ==> after == before
            &&& rule.pairs(node, more, oracle, slot) && (before.len() == 0
                || before.last().order.base_asset_amount
                - before.last().order.base_asset_amount_filled < node.order.base_asset_amount
                - node.order.base_asset_amount_filled) ==> after == before.push(more)
        }),
{
    assert(makers.push(more).drop_last() =~= makers);
}

/// How much two orders that are matched are filled: by the smaller of what is left of
/// the two, so that one of them is then filled as a whole and neither beyond its size.
pub proof fn lemma_how_much_is_filled(a: Order, b: Order)
    requires
        a.base_asset_amount_filled <= a.base_asset_amount,
        b.base_asset_amount_filled <= b.base_asset_amount,
    ensures
        ({
            let more = base_filled(a, b);
            let a_after = a.with_more_filled(more);
            let b_after = b.with_more_filled(more);
            &&& a_after.base_asset_amount_filled - a.base_asset_amount_filled
                == b_after.base_asset_amount_filled - b.base_asset_amount_filled
            &&& a.base_asset_amount_filled <= a_after.base_asset_amount_filled
                <= a.base_asset_amount
            &&& b_after.base_asset_amount_filled <= b.base_asset_amount
            &&& a_after.base_asset_amount_filled == a.base_asset_amount
                || b_after.base_asset_amount_filled == b.base_asset_amount
            &&& a_after == (Order {
                base_asset_amount_filled: a_after.base_asset_amount_filled,
                ..a
            })
        }),
{
}

/// What a match does to the book: the maker is written where it belongs with the amount
/// of the match added to what was filled of it, and then the node.
pub proof fn lemma_match_fills_both(
    before: BookView,
    maker: Node,
    node: Node,
    slot: u64,
    after: BookView,
) -> (between: BookView)
    requires
        pair_filled(before, maker, node, slot, after),
        maker.order.base_asset_amount_filled <= maker.order.base_asset_amount,
        node.order.base_asset_amount_filled <= node.order.base_asset_amount,
    ensures
        ({
            let maker_left = maker.order.base_asset_amount - maker.order.base_asset_amount_filled;
            let node_left = node.order.base_asset_amount - node.order.base_asset_amount_filled;
            let amount = if maker_left <= node_left {
                maker_left
            } else {
                node_left
            };
            let maker_order = Order {
                base_asset_amount_filled: (maker.order.base_asset_amount_filled + amount) as u64,
                ..maker.order
            };
            let node_order = Order {
                base_asset_amount_filled: (node.order.base_asset_amount_filled + amount) as u64,
                ..node.order
            };
            &&& order_updated(before, maker_order, maker.user_account, slot, between)
            &&& order_updated(between, node_order, node.user_account, slot, after)
        }),
{
    let base = base_filled(maker.order, node.order);
    choose|between: BookView| #[trigger]
        order_updated(
            before,
            maker.order.with_more_filled(base),
            maker.user_account,
            slot,
            between,
        ) && order_updated(
            between,
            node.order.with_more_filled(base),
            node.user_account,
            slot,
            after,
        )
}

/// A node is filled with its makers one after the other, each match starting from the
/// book that the one before left.
pub proof fn lemma_makers_fill_in_turn(
    before: BookView,
    node: Node,
    makers: Seq<Node>,
    more: Node,
    slot: u64,
    after: BookView,
)
    ensures
        all_filled(before, node, Seq::<Node>::empty(), slot, after) <==> after == before,
        all_filled(before, node, makers.push(more), slot, after) <==> exists|between: BookView|
            all_filled(before, node, makers, slot, between) && #[trigger] pair_filled(
                between,
                more,
                node,
                slot,
                after,
            ),
{
    let all = makers.push(more);
    assert(all.drop_last() =~= makers);
    assert(all.last() == more);
    if all_filled(before, node, all, slot, after) {
        let between = choose|between: BookView|
            all_filled(before, node, all.drop_last(), slot, between) && #[trigger] pair_filled(
                between,
                all.last(),
                node,
                slot,
                after,
            );
        assert(all_filled(before, node, makers, slot, between) && pair_filled(
            between,
            more,
            node,
            slot,
            after,
        ));
    }
    if exists|between: BookView|
        all_filled(before, node, makers, slot, between) && #[trigger] pair_filled(
            between,
            more,
            node,
            slot,
            after,
        ) {
        let between = choose|between: BookView|
            all_filled(before, node, makers, slot, between) && #[trigger] pair_filled(
                between,
                more,
                node,
                slot,
                after,
            );
        assert(all_filled(before, node, all.drop_last(), slot, between) && pair_filled(
            between,
            all.last(),
            node,
            slot,
            after,
        ));
    }
}

proof fn lemma_no_match_means_no_pair(
    rule: MatchRule,
    node: Node,
    makers: Seq<Node>,
    oracle: OraclePriceData,
    slot: u64,
)
    ensures
        matched(rule, node, makers, oracle, slot).len() == 0 <==> forall|m: Node| #[trigger]
            makers.contains(m) ==> !rule.pairs(node, m, oracle, slot),
    decreases makers.len(),
{
    if makers.len() > 0 {
        let rest = makers.drop_last();
        lemma_no_match_means_no_pair(rule, node, rest, oracle, slot);
        assert(makers[makers.len() - 1] == makers.last());
        assert forall|m: Node| #[trigger] makers.contains(m) <==> rest.contains(m) || m
            == makers.last() by {
            if makers.contains(m) {
                let i = choose|i: int| 0 <= i < makers.len() && makers[i] == m;
                if i < rest.len() {
                    assert(rest[i] == m);
                }
            }
            if rest.contains(m) {
                let i = choose|i: int| 0 <= i < rest.len() && rest[i] == m;
                assert(makers[i] == m);
            }
        }
        let last = makers.last();
        let so_far = matched(rule, node, rest, oracle, slot);
        if matched(rule, node, makers, oracle, slot).len() == 0 {
            assert(so_far.len() == 0);
            assert(!rule.pairs(node, last, oracle, slot));
            assert forall|m: Node| #[trigger] makers.contains(m) implies !rule.pairs(
                node,
                m,
                oracle,
                slot,
            ) by {
                assert(rest.contains(m) || m == last);
            }
        }
        if forall|m: Node| #[trigger]
            makers.contains(m) ==> !rule.pairs(node, m, oracle, slot) {
            assert(makers.contains(last));
            assert forall|m: Node| #[trigger] rest.contains(m) implies !rule.pairs(
                node,
                m,
                oracle,
                slot,
            ) by {
                assert(makers.contains(m));
            }
        }
    }
}

/// Whether a fill is that of the node with one of the makers that the rule pairs with
/// it.
pub open spec fn is_filled_by_one_of(
    rule: MatchRule,
    node: Node,
    makers: Seq<Node>,
    oracle: OraclePriceData,
    slot: u64,
    fill: Fill,
) -> bool {
    exists|m: Node| #[trigger]
        makers.contains(m) && rule.pairs(node, m, oracle, slot) && fill == rule.fill(node, m)
}

/// Every node of a list is matched, in its turn, with the makers that the book has once
/// the nodes before it have been. One that the rule pairs with a maker there yields a
/// fill; one that it pairs with none yields nothing and leaves the book as it is.
pub proof fn lemma_every_node_has_its_turn(
    rule: MatchRule,
    before: BookView,
    side: Side,
    nodes: Seq<Node>,
    node: Node,
    oracle: OraclePriceData,
    slot: u64,
    after: BookView,
    out: Seq<Fill>,
) -> (turn: (BookView, Seq<Fill>))
    requires
        all_matched(rule, before, side, nodes.push(node), oracle, slot, after, out),
    ensures
        all_matched(rule, before, side, nodes, oracle, slot, turn.0, turn.1),
        turn.1.is_prefix_of(out),
        (forall|m: Node| #[trigger]
            quotes(turn.0, side, oracle, slot).contains(m) ==> !rule.pairs(node, m, oracle, slot))
            ==> out == turn.1 && after == turn.0,
        forall|m: Node|
            #![trigger quotes(turn.0, side, oracle, slot).contains(m)]
            quotes(turn.0, side, oracle, slot).contains(m) && rule.pairs(node, m, oracle, slot)
                ==> out.len() > turn.1.len(),
        forall|i: int|
            turn.1.len() <= i < out.len() ==> is_filled_by_one_of(
                rule,
                node,
                quotes(turn.0, side, oracle, slot),
                oracle,
                slot,
                #[trigger] out[i],
            ),
{
    assert(nodes.push(node).drop_last() =~= nodes);
    let (between, so_far) = choose|between: BookView, so_far: Seq<Fill>|
        all_matched(rule, before, side, nodes, oracle, slot, between, so_far)
            && #[trigger] node_matched(
            rule,
            between,
            so_far,
            side,
            node,
            oracle,
            slot,
            after,
            out,
        );
    let makers = quotes(between, side, oracle, slot);
    let pairs = matched(rule, node, makers, oracle, slot);
    lemma_no_match_means_no_pair(rule, node, makers, oracle, slot);
    lemma_matched_are_pairs(rule, node, makers, oracle, slot);
    assert(out == so_far + fills_with(rule, node, pairs));
    if pairs.len() == 0 {
        assert(out =~= so_far);
    }
    assert forall|i: int| so_far.len() <= i < out.len() implies is_filled_by_one_of(
        rule,
        node,
        makers,
        oracle,
        slot,
        #[trigger] out[i],
    ) by {
        let m = pairs[i - so_far.len()];
        assert(makers.contains(m) && rule.pairs(node, m, oracle, slot) && out[i] == rule.fill(
            node,
            m,
        ));
    }
    (between, so_far)
}

/// Matching that yields nothing has found no node that the rule pairs with a maker, and
/// leaves the book as it is.
pub proof fn lemma_no_fill_means_no_pair(
    rule: MatchRule,
    before: BookView,
    side: Side,
    nodes: Seq<Node>,
    oracle: OraclePriceData,
    slot: u64,
    after: BookView,
    out: Seq<Fill>,
)
    requires
        all_matched(rule, before, side, nodes, oracle, slot, after, out),
        out.len() == 0,
    ensures
        after == before,
        forall|n: Node, m: Node| #[trigger]
            nodes.contains(n) && #[trigger] quotes(before, side, oracle, slot).contains(m)
                ==> !rule.pairs(n, m, oracle, slot),
    decreases nodes.len(),
{
    if nodes.len() > 0 {
        let rest = nodes.drop_last();
        assert(rest.push(nodes.last()) =~= nodes);
        let (between, so_far) = lemma_every_node_has_its_turn(
            rule,
            before,
            side,
            rest,
            nodes.last(),
            oracle,
            slot,
            after,
            out,
        );
        lemma_no_fill_means_no_pair(rule, before, side, rest, oracle, slot, between, so_far);
        assert forall|n: Node, m: Node| #[trigger]
            nodes.contains(n) && #[trigger] quotes(before, side, oracle, slot).contains(
                m,
            ) implies !rule.pairs(n, m, oracle, slot) by {
            let i = choose|i: int| 0 <= i < nodes.len() && nodes[i] == n;
            if i < rest.len() {
                assert(rest[i] == n);
                assert(rest.contains(n));
            }
        }
    }
}

/// What a bound on a price lets through.
pub proof fn lemma_price_tests(bound: u64, price: int)
    ensures
        PriceTest::Below(bound).admits(price) <==> bound > price,
        PriceTest::AtMost(bound).admits(price) <==> bound >= price,
        PriceTest::Above(bound).admits(price) <==> bound < price,
{
}

/// Which nodes liquidity from outside the book fills. In a perp market it is those
/// whose price is within the bound and that were placed more than the minimal auction
/// ago. In a spot market it is those whose price is within the bound and that are not
/// post-only. Each comes without makers, in the order in which the nodes are listed.
pub proof fn lemma_what_the_fallback_fills(
    market_type: MarketType,
    slot: u64,
    oracle: OraclePriceData,
    nodes: Seq<Node>,
    more: Node,
    test: PriceTest,
    min_auction_duration: u8,
)
    ensures
        fallback_fills(
            market_type,
            slot,
            oracle,
            Seq::<Node>::empty(),
            test,
            min_auction_duration,
        ).len() == 0,
        ({
            let before = fallback_fills(
                market_type,
                slot,
                oracle,
                nodes,
                test,
                min_auction_duration,
            );
            let after = fallback_fills(
                market_type,
                slot,
                oracle,
                nodes.push(more),
                test,
                min_auction_duration,
            );
            let good = test.admits(more.price(oracle, slot)) && match market_type {
                MarketType::Perp => min_auction_duration == 0 || slot - more.order.slot
                    > min_auction_duration,
                MarketType::Spot => !more.order.post_only,
            };
            &&& good ==> after == before.push(Fill { node: more, makers: Seq::empty() })
            &&& !good ==> after == before
        }),
{
    let crosses = |n: Node|
        crosses_fallback(market_type, slot, oracle, test, min_auction_duration, n);
    let alone = |n: Node| fill_alone(n);
    reveal(Seq::filter);
    assert(nodes.push(more).drop_last() =~= nodes);
    assert(fallback_fills(market_type, slot, oracle, nodes, test, min_auction_duration)
        == nodes.filter(crosses).map_values(alone));
    assert(nodes.filter(crosses).push(more).map_values(alone) =~= nodes.filter(crosses).map_values(
        alone,
    ).push(fill_alone(more)));
}

/// Which of the nodes liquidity from outside the book fills, by membership.
pub proof fn lemma_fallback_fills_exactly(
    market_type: MarketType,
    slot: u64,
    oracle: OraclePriceData,
    nodes: Seq<Node>,
    test: PriceTest,
    min_auction_duration: u8,
)
    ensures
        ({
            let out = fallback_fills(market_type, slot, oracle, nodes, test, min_auction_duration);
            &&& forall|i: int|
                0 <= i < out.len() ==> (#[trigger] out[i]).makers.len() == 0 && nodes.contains(
                    out[i].node,
                ) && test.admits(out[i].node.price(oracle, slot)) && match market_type {
                    MarketType::Perp => min_auction_duration == 0 || slot - out[i].node.order.slot
                        > min_auction_duration,
                    MarketType::Spot => !out[i].node.order.post_only,
                }
            &&& forall|n: Node| #[trigger]
                nodes.contains(n) && test.admits(n.price(oracle, slot)) && match market_type {
                    MarketType::Perp => min_auction_duration == 0 || slot - n.order.slot
                        > min_auction_duration,
                    MarketType::Spot => !n.order.post_only,
                } ==> out.contains(Fill { node: n, makers: Seq::empty() })
        }),
    decreases nodes.len(),
{
    let out = fallback_fills(market_type, slot, oracle, nodes, test, min_auction_duration);
    if nodes.len() == 0 {
        assert(nodes =~= Seq::<Node>::empty());
        lemma_what_the_fallback_fills(
            market_type,
            slot,
            oracle,
            nodes,
            arbitrary(),
            test,
            min_auction_duration,
        );
    } else {
        let rest = nodes.drop_last();
        let last = nodes.last();
        assert(rest.push(last) =~= nodes);
        lemma_fallback_fills_exactly(market_type, slot, oracle, rest, test, min_auction_duration);
        lemma_what_the_fallback_fills(
            market_type,
            slot,
            oracle,
            rest,
            last,
            test,
            min_auction_duration,
        );
        let before = fallback_fills(market_type, slot, oracle, rest, test, min_auction_duration);
        assert(nodes[nodes.len() - 1] == last);
        assert forall|i: int| 0 <= i < out.len() implies (#[trigger] out[i]).makers.len() == 0
            && nodes.contains(out[i].node) && test.admits(out[i].node.price(oracle, slot))
            && match market_type {
            MarketType::Perp => min_auction_duration == 0 || slot - out[i].node.order.slot
                > min_auction_duration,
            MarketType::Spot => !out[i].node.order.post_only,
        } by {
            if i < before.len() {
                assert(out[i] == before[i]);
                let k = choose|k: int| 0 <= k < rest.len() && rest[k] == out[i].node;
                assert(nodes[k] == out[i].node);
            }
        }
        assert forall|n: Node| #[trigger]
            nodes.contains(n) && test.admits(n.price(oracle, slot)) && match market_type {
                MarketType::Perp => min_auction_duration == 0 || slot - n.order.slot
                    > min_auction_duration,
                MarketType::Spot => !n.order.post_only,
            } implies out.contains(Fill { node: n, makers: Seq::empty() }) by {
            let fill = Fill { node: n, makers: Seq::<Node>::empty() };
            let k = choose|k: int| 0 <= k < nodes.len() && nodes[k] == n;
            if k < rest.len() {
                assert(rest[k] == n);
                assert(rest.contains(n));
                assert(before.contains(fill));
                let j = choose|j: int| 0 <= j < before.len() && before[j] == fill;
                assert(out[j] == fill);
            } else {
                assert(out[out.len() - 1] == fill);
            }
        }
    }
}

/// Which orders come up as expired: those of the taking, the resting, the floating and
/// the market orders, the bids and then the asks, each queue in its order, that are
/// expired with the buffer.
pub proof fn lemma_expired_orders_in_order(market: MarketView, ts: i64)
    ensures
        ({
            let is_expired = |n: Node| expired(n.order, ts, true);
            expired_fills(market, ts) == (market.taking_limit_orders.bids.filter(is_expired)
                + market.resting_limit_orders.bids.filter(is_expired)
                + market.floating_limit_orders.bids.filter(is_expired)
                + market.market_orders.bids.filter(is_expired)
                + market.taking_limit_orders.asks.filter(is_expired)
                + market.resting_limit_orders.asks.filter(is_expired)
                + market.floating_limit_orders.asks.filter(is_expired)
                + market.market_orders.asks.filter(is_expired)).map_values(
                |n: Node| Fill { node: n, makers: Seq::<Node>::empty() },
            )
        }),
{
    let is_expired = |n: Node| expired(n.order, ts, true);
    let alone = |n: Node| Fill { node: n, makers: Seq::<Node>::empty() };
    assert((|n: Node| fill_alone(n)) =~= alone);
    assert(expired_fills(market, ts) =~= (market.taking_limit_orders.bids.filter(is_expired)
        + market.resting_limit_orders.bids.filter(is_expired)
        + market.floating_limit_orders.bids.filter(is_expired) + market.market_orders.bids.filter(
        is_expired,
    ) + market.taking_limit_orders.asks.filter(is_expired)
        + market.resting_limit_orders.asks.filter(is_expired)
        + market.floating_limit_orders.asks.filter(is_expired) + market.market_orders.asks.filter(
        is_expired,
    )).map_values(alone));
}

/// Whether a node is in one of the eight queues of a market in which orders can expire.
pub open spec fn can_come_up(market: MarketView, n: Node) -> bool {
    ||| market.taking_limit_orders.bids.contains(n)
    ||| market.taking_limit_orders.asks.contains(n)
    ||| market.resting_limit_orders.bids.contains(n)
    ||| market.resting_limit_orders.asks.contains(n)
    ||| market.floating_limit_orders.bids.contains(n)
    ||| market.floating_limit_orders.asks.contains(n)
    ||| market.market_orders.bids.contains(n)
    ||| market.market_orders.asks.contains(n)
}

proof fn lemma_expired_nodes_exactly(nodes: Seq<Node>, ts: i64)
    ensures
        forall|i: int|
            0 <= i < expired_nodes(nodes, ts).len() ==> (#[trigger] expired_nodes(
                nodes,
                ts,
            )[i]).makers.len() == 0 && nodes.contains(expired_nodes(nodes, ts)[i].node) && expired(
                expired_nodes(nodes, ts)[i].node.order,
                ts,
                true,
            ),
        forall|n: Node| #[trigger]
            nodes.contains(n) && expired(n.order, ts, true) ==> expired_nodes(nodes, ts).contains(
                Fill { node: n, makers: Seq::empty() },
            ),
{
    let is_expired = |n: Node| expired(n.order, ts, true);
    let kept = nodes.filter(is_expired);
    let out = expired_nodes(nodes, ts);
    broadcast use vstd::seq_lib::group_filter_ensures;

    assert forall|i: int| 0 <= i < out.len() implies (#[trigger] out[i]).makers.len() == 0
        && nodes.contains(out[i].node) && expired(out[i].node.order, ts, true) by {
        assert(out[i].node == kept[i]);
        nodes.lemma_filter_pred(is_expired, i);
        assert(kept.contains(kept[i]));
        nodes.lemma_filter_contains_rev(is_expired, kept[i]);
    }
    assert forall|n: Node| #[trigger]
        nodes.contains(n) && expired(n.order, ts, true) implies out.contains(
        Fill { node: n, makers: Seq::empty() },
    ) by {
        let k = choose|k: int| 0 <= k < nodes.len() && nodes[k] == n;
        nodes.lemma_filter_contains(is_expired, k);
        let j = choose|j: int| 0 <= j < kept.len() && kept[j] == n;
        assert(out[j] =~= Fill { node: n, makers: Seq::empty() });
    }
}

/// Every order of a market outside its trigger lists that is expired with the buffer
/// comes up, and nothing else does. None comes with makers.
pub proof fn lemma_every_expired_order_comes_up(market: MarketView, ts: i64)
    ensures
        forall|i: int|
            0 <= i < expired_fills(market, ts).len() ==> (#[trigger] expired_fills(
                market,
                ts,
            )[i]).makers.len() == 0 && can_come_up(market, expired_fills(market, ts)[i].node)
                && expired(expired_fills(market, ts)[i].node.order, ts, true),
        forall|n: Node| #[trigger]
            can_come_up(market, n) && expired(n.order, ts, true) ==> expired_fills(
                market,
                ts,
            ).contains(Fill { node: n, makers: Seq::empty() }),
{
    let out = expired_fills(market, ts);
    let bids = expired_on_side(market, SubType::Bid, ts);
    let asks = expired_on_side(market, SubType::Ask, ts);
    lemma_expired_on_side(market, SubType::Bid, ts);
    lemma_expired_on_side(market, SubType::Ask, ts);
    assert(out == bids + asks);
    assert forall|i: int| 0 <= i < out.len() implies (#[trigger] out[i]).makers.len() == 0
        && can_come_up(market, out[i].node) && expired(out[i].node.order, ts, true) by {
        if i < bids.len() {
            assert(out[i] == bids[i]);
        } else {
            assert(out[i] == asks[i - bids.len()]);
        }
    }
    assert forall|n: Node| #[trigger]
        can_come_up(market, n) && expired(n.order, ts, true) implies out.contains(
        Fill { node: n, makers: Seq::empty() },
    ) by {
        let fill = Fill { node: n, makers: Seq::<Node>::empty() };
        if bids.contains(fill) {
            let i = choose|i: int| 0 <= i < bids.len() && bids[i] == fill;
            assert(out[i] == fill);
        } else {
            assert(asks.contains(fill));
            let i = choose|i: int| 0 <= i < asks.len() && asks[i] == fill;
            assert(out[bids.len() + i] == fill);
        }
    }
}

proof fn lemma_expired_on_side(market: MarketView, sub_type: SubType, ts: i64)
    ensures
        forall|i: int|
            0 <= i < expired_on_side(market, sub_type, ts).len() ==> (#[trigger] expired_on_side(
                market,
                sub_type,
                ts,
            )[i]).makers.len() == 0 && can_come_up(
                market,
                expired_on_side(market, sub_type, ts)[i].node,
            ) && expired(expired_on_side(market, sub_type, ts)[i].node.order, ts, true),
        forall|n: Node| #[trigger]
            can_come_up(market, n) && expired(n.order, ts, true) && match sub_type {
                SubType::Bid => market.taking_limit_orders.bids.contains(n)
                    || market.resting_limit_orders.bids.contains(n)
                    || market.floating_limit_orders.bids.contains(n)
                    || market.market_orders.bids.contains(n),
                SubType::Ask => market.taking_limit_orders.asks.contains(n)
                    || market.resting_limit_orders.asks.contains(n)
                    || market.floating_limit_orders.asks.contains(n)
                    || market.market_orders.asks.contains(n),
            } ==> expired_on_side(market, sub_type, ts).contains(
                Fill { node: n, makers: Seq::empty() },
            ),
{
    let (taking, resting, floating, orders) = match sub_type {
        SubType::Bid => (
            market.taking_limit_orders.bids,
            market.resting_limit_orders.bids,
            market.floating_limit_orders.bids,
            market.market_orders.bids,
        ),
        SubType::Ask => (
            market.taking_limit_orders.asks,
            market.resting_limit_orders.asks,
            market.floating_limit_orders.asks,
            market.market_orders.asks,
        ),
    };
    assert(taking == market.queue(NodeType::TakingLimit, sub_type));
    assert(resting == market.queue(NodeType::RestingLimit, sub_type));
    assert(floating == market.queue(NodeType::FloatingLimit, sub_type));
    assert(orders == market.queue(NodeType::Market, sub_type));
    lemma_expired_nodes_exactly(taking, ts);
    lemma_expired_nodes_exactly(resting, ts);
    lemma_expired_nodes_exactly(floating, ts);
    lemma_expired_nodes_exactly(orders, ts);
    let a = expired_nodes(taking, ts);
    let b = expired_nodes(resting, ts);
    let c = expired_nodes(floating, ts);
    let d = expired_nodes(orders, ts);
    let out = expired_on_side(market, sub_type, ts);
    assert(out == a + b + c + d);
    assert forall|i: int| 0 <= i < out.len() implies (#[trigger] out[i]).makers.len() == 0
        && can_come_up(market, out[i].node) && expired(out[i].node.order, ts, true) by {
        if i < a.len() {
            assert(out[i] == a[i]);
        } else if i < a.len() + b.len() {
            assert(out[i] == b[i - a.len()]);
        } else if i < a.len() + b.len() + c.len() {
            assert(out[i] == c[i - a.len() - b.len()]);
        } else {
            assert(out[i] == d[i - a.len() - b.len() - c.len()]);
        }
    }
    assert forall|n: Node| #[trigger]
        can_come_up(market, n) && expired(n.order, ts, true) && match sub_type {
            SubType::Bid => market.taking_limit_orders.bids.contains(n)
                || market.resting_limit_orders.bids.contains(n)
                || market.floating_limit_orders.bids.contains(n)
                || market.market_orders.bids.contains(n),
            SubType::Ask => market.taking_limit_orders.asks.contains(n)
                || market.resting_limit_orders.asks.contains(n)
                || market.floating_limit_orders.asks.contains(n)
                || market.market_orders.asks.contains(n),
        } implies out.contains(Fill { node: n, makers: Seq::empty() }) by {
        assert(taking.contains(n) || resting.contains(n) || floating.contains(n)
            || orders.contains(n));
        let fill = Fill { node: n, makers: Seq::<Node>::empty() };
        if a.contains(fill) {
            let i = choose|i: int| 0 <= i < a.len() && a[i] == fill;
            assert(out[i] == fill);
        } else if b.contains(fill) {
            let i = choose|i: int| 0 <= i < b.len() && b[i] == fill;
            assert(out[a.len() + i] == fill);
        } else if c.contains(fill) {
            let i = choose|i: int| 0 <= i < c.len() && c[i] == fill;
            assert(out[a.len() + b.len() + i] == fill);
        } else {
            assert(d.contains(fill));
            let i = choose|i: int| 0 <= i < d.len() && d[i] == fill;
            assert(out[a.len() + b.len() + c.len() + i] == fill);
        }
    }
}

} // verus!
