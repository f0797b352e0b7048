//! What a search for orders to fill or to trigger finds, in terms of the book that it
//! is made on and of what it is asked for.

use vstd::prelude::*;

use crate::dlob::book::BookView;
use crate::dlob::checked::{apart, can_start, lemma_listed_once, tested_and_searched};
use crate::dlob::laws::{lemma_no_account_fills_itself, lemma_no_trigger_is_missed};
use crate::dlob::market::MarketView;
use crate::dlob::matching::{all_matched, expired_fills, fallback_fills, MatchRule, PriceTest};
use crate::dlob::matching_laws::{
    can_come_up, lemma_every_expired_order_comes_up, lemma_fallback_fills_exactly,
    lemma_no_fill_means_no_pair, lemma_which_orders_pair,
};
use crate::dlob::node::{Fill, Node, NodeType, SubType};
use crate::dlob::quotes::{quotes, takers, will_quote, Side};
use crate::dlob::readiness::crossing_ready;
use crate::dlob::resting::brought_to;
use crate::dlob::search::{
    crossing_found, expiries_in_range, fill_ready, fills_found, fires_above, fires_below,
    less_rebate, makers_for, nodes_triggered, nodes_triggered_under, rebate_in_range,
    resting_asks_filled, resting_bids_filled, resting_found, resting_ready, search_of,
    search_under, sides_matched, takers_matched, taking_asks_filled, taking_bids_filled,
    taking_found, taking_ready, taking_rule, FillSearch,
};
use crate::dlob::steady::{lemma_ready_orders_can_be_searched, orders_ready};
use crate::dlob::storage_laws::{
    lemma_makers_of_a_side, lemma_queues_of_a_market, lemma_takers_of_a_side,
};
use crate::dlob::utils::{
    is_first_node, lemma_merged, makers_listed, merged, names, occurs_first,
};
use crate::market_operations::MarketOperations;
use crate::math::order::{expired, expiry_in_range};
use crate::types::{
    MarketType, OraclePriceData, State, AMM_PAUSED, EXCHANGE_ACTIVE, FILL_PAUSED,
};

verus! {

/// What a search of a market goes by: the kind and the index of the market, the slot,
/// the oracle, whether its AMM is paused, the fallback prices as they are, and the
/// minimal auction of the exchange in a perp market, none in a spot market.
pub proof fn lemma_what_a_search_goes_by<M: MarketOperations>(
    market: &M,
    state: State,
    slot: u64,
    oracle: OraclePriceData,
    fallback_bid: Option<u64>,
    fallback_ask: Option<u64>,
)
    ensures
        ({
            let search = search_under(market, state, slot, oracle, fallback_bid, fallback_ask);
            &&& search.market_type == market.kind()
            &&& search.market_index == market.index()
            &&& search.slot == slot
            &&& search.oracle == oracle
            &&& search.is_amm_paused == market.amm_is_paused(state)
            &&& search.fallback_bid == fallback_bid
            &&& search.fallback_ask == fallback_ask
            &&& market.kind() == MarketType::Perp ==> search.min_auction_duration
                == state.min_perp_auction_duration
            &&& market.kind() == MarketType::Spot ==> search.min_auction_duration == 0
        }),
{
}

/// What a search that is told all of this goes by.
pub proof fn lemma_what_a_search_is_told<M: MarketOperations>(
    market: &M,
    slot: u64,
    oracle: OraclePriceData,
    is_amm_paused: bool,
    min_auction_duration: u8,
    fallback_bid: Option<u64>,
    fallback_ask: Option<u64>,
)
    ensures
        ({
            let search = search_of(
                market,
                slot,
                oracle,
                is_amm_paused,
                min_auction_duration,
                fallback_bid,
                fallback_ask,
            );
            &&& search.market_type == market.kind()
            &&& search.market_index == market.index()
            &&& search.slot == slot
            &&& search.oracle == oracle
            &&& search.is_amm_paused == is_amm_paused
            &&& search.min_auction_duration == min_auction_duration
            &&& search.fallback_bid == fallback_bid
            &&& search.fallback_ask == fallback_ask
        }),
{
}

/// The status of an exchange on which nothing is paused, and the bits that pause fills
/// against the AMM and all fills.
pub proof fn lemma_status_of_the_exchange()
    ensures
        EXCHANGE_ACTIVE == 0,
        AMM_PAUSED == 4,
        FILL_PAUSED == 8,
{
}

/// With whom takers are matched: where there are any, the book is brought to the slot,
/// and each is then matched in turn with the makers of the other side, asks with bids
/// and bids with asks.
pub proof fn lemma_with_whom_takers_are_matched(
    market_type: MarketType,
    market_index: u16,
    taker_side: SubType,
    fallback: Option<u64>,
    nodes: Seq<Node>,
    oracle: OraclePriceData,
    slot: u64,
    before: BookView,
    after: BookView,
    out: Seq<Fill>,
) -> (brought: BookView)
    requires
        takers_matched(
            taking_rule(market_type, taker_side, fallback),
            makers_for(market_type, market_index, taker_side),
            nodes,
            oracle,
            slot,
            before,
            after,
            out,
        ),
    ensures
        nodes.len() == 0 ==> after == before && out.len() == 0,
        nodes.len() > 0 ==> brought_to(before, slot, brought),
        nodes.len() > 0 && taker_side == SubType::Ask ==> all_matched(
            MatchRule::Taking { market_type, taker_side: SubType::Ask, fallback },
            brought,
            Side { market_type, market_index, sub_type: SubType::Bid },
            nodes,
            oracle,
            slot,
            after,
            out,
        ),
        nodes.len() > 0 && taker_side == SubType::Bid ==> all_matched(
            MatchRule::Taking { market_type, taker_side: SubType::Bid, fallback },
            brought,
            Side { market_type, market_index, sub_type: SubType::Ask },
            nodes,
            oracle,
            slot,
            after,
            out,
        ),
{
    if nodes.len() == 0 {
        before
    } else {
        choose|brought: BookView| #[trigger]
            brought_to(before, slot, brought) && all_matched(
                taking_rule(market_type, taker_side, fallback),
                brought,
                makers_for(market_type, market_index, taker_side),
                nodes,
                oracle,
                slot,
                after,
                out,
            )
    }
}

/// The price that is left of a fallback price once the rebate of makers is taken off:
/// the rebate is the fraction of the price, rounded down.
pub proof fn lemma_rebate(price: u64, rebate: (u64, u64))
    requires
        rebate.1 > 0,
    ensures
        ({
            let off = price - less_rebate(price, rebate);
            0 <= off && off * rebate.1 <= price * rebate.0 < (off + 1) * rebate.1
        }),
        rebate_in_range(price, rebate) <==> price * rebate.0 <= 0xFFFF_FFFF_FFFF_FFFF
            && less_rebate(price, rebate) >= 0,
{
    let product = price * rebate.0;
    let quotient = product / (rebate.1 as int);
    assert(product >= 0) by (nonlinear_arith)
        requires
            product == price * rebate.0,
    ;
    let divisor = rebate.1 as int;
    assert(0 <= quotient && quotient * divisor <= product && product < (quotient + 1) * divisor)
        by (nonlinear_arith)
        requires
            divisor > 0,
            product >= 0,
            quotient == product / divisor,
    ;
}

/// Whether liquidity from outside the book may fill a node in the slot of a search: in
/// a perp market one that was placed more than the minimal auction ago, in a spot
/// market one that is not post-only.
pub open spec fn may_be_filled_from_outside(search: FillSearch, n: Node) -> bool {
    match search.market_type {
        MarketType::Perp => search.min_auction_duration == 0 || search.slot - n.order.slot
            > search.min_auction_duration,
        MarketType::Spot => !n.order.post_only,
    }
}

proof fn lemma_alone_in(
    out: Seq<Fill>,
    nodes: Seq<Node>,
    test: PriceTest,
    search: FillSearch,
    n: Node,
)
    requires
        out == fallback_fills(
            search.market_type,
            search.slot,
            search.oracle,
            nodes,
            test,
            search.min_auction_duration,
        ),
    ensures
        out.contains(Fill { node: n, makers: Seq::empty() }) <==> nodes.contains(n) && test.admits(
            n.price(search.oracle, search.slot),
        ) && may_be_filled_from_outside(search, n),
{
    lemma_fallback_fills_exactly(
        search.market_type,
        search.slot,
        search.oracle,
        nodes,
        test,
        search.min_auction_duration,
    );
    let fill = Fill { node: n, makers: Seq::<Node>::empty() };
    if out.contains(fill) {
        let i = choose|i: int| 0 <= i < out.len() && out[i] == fill;
        assert(out[i].node == n);
    }
}

proof fn lemma_in_sum(a: Seq<Fill>, b: Seq<Fill>, fill: Fill)
    ensures
        (a + b).contains(fill) <==> a.contains(fill) || b.contains(fill),
{
    if a.contains(fill) {
        let i = choose|i: int| 0 <= i < a.len() && a[i] == fill;
        assert((a + b)[i] == fill);
    }
    if b.contains(fill) {
        let i = choose|i: int| 0 <= i < b.len() && b[i] == fill;
        assert((a + b)[a.len() + i] == fill);
    }
}

/// What a search for crossing orders is: the book is brought to the slot, and its
/// resting and floating asks, the best first, are then matched in turn with its
/// resting and floating bids.
pub proof fn lemma_search_for_crossing_orders(
    market_type: MarketType,
    market_index: u16,
    oracle: OraclePriceData,
    slot: u64,
    before: BookView,
    after: BookView,
    out: Seq<Fill>,
) -> (brought: BookView)
    requires
        crossing_found(market_type, market_index, oracle, slot, before, after, out),
    ensures
        brought_to(before, slot, brought),
        all_matched(
            MatchRule::Crossing,
            brought,
            Side { market_type, market_index, sub_type: SubType::Bid },
            quotes(
                brought,
                Side { market_type, market_index, sub_type: SubType::Ask },
                oracle,
                slot,
            ),
            oracle,
            slot,
            after,
            out,
        ),
        forall|i: int| 0 <= i < out.len() ==> (#[trigger] out[i]).makers.len() == 1,
        forall|i: int|
            0 <= i < out.len() ==> (#[trigger] out[i]).node.user_account
                != out[i].makers[0].user_account,
{
    let asks = Side { market_type, market_index, sub_type: SubType::Ask };
    let bids = Side { market_type, market_index, sub_type: SubType::Bid };
    let brought = choose|brought: BookView| #[trigger]
        brought_to(before, slot, brought) && all_matched(
            MatchRule::Crossing,
            brought,
            bids,
            quotes(brought, asks, oracle, slot),
            oracle,
            slot,
            after,
            out,
        );
    lemma_one_maker_each(
        MatchRule::Crossing,
        brought,
        bids,
        quotes(brought, asks, oracle, slot),
        oracle,
        slot,
        after,
        out,
    );
    brought
}

proof fn lemma_one_maker_each(
    rule: MatchRule,
    before: BookView,
    side: Side,
    nodes: Seq<Node>,
    oracle: OraclePriceData,
    slot: u64,
    after: BookView,
    out: Seq<Fill>,
)
    requires
        all_matched(rule, before, side, nodes, oracle, slot, after, out),
    ensures
        forall|i: int| 0 <= i < out.len() ==> (#[trigger] out[i]).makers.len() == 1,
        forall|i: int|
            0 <= i < out.len() ==> (#[trigger] out[i]).node.user_account
                != out[i].makers[0].user_account,
{
    assert forall|i: int| 0 <= i < out.len() implies (#[trigger] out[i]).makers.len() == 1
        && out[i].node.user_account != out[i].makers[0].user_account by {
        lemma_no_account_fills_itself(rule, before, side, nodes, oracle, slot, after, out, i);
    }
}

/// What a search of the resting orders yields without makers. It is the asks that make
/// and want less than the fallback bid less the rebate, and the bids that make and pay
/// more than the fallback ask less the rebate, as far as liquidity from outside the
/// book may fill them and the AMM is not paused.
pub proof fn lemma_resting_orders_filled_from_outside(
    search: FillSearch,
    rebate: (u64, u64),
    before: BookView,
    after: BookView,
    out: Seq<Fill>,
    n: Node,
)
    requires
        resting_found(search, rebate, before, after, out),
        !search.is_amm_paused ==> (search.fallback_bid matches Some(price) ==> rebate_in_range(
            price,
            rebate,
        )),
        !search.is_amm_paused ==> (search.fallback_ask matches Some(price) ==> rebate_in_range(
            price,
            rebate,
        )),
    ensures
        ({
            let market = after.market(search.market_type, search.market_index);
            let price = n.price(search.oracle, search.slot);
            let ask = market.resting_limit_orders.asks.contains(n)
                || market.floating_limit_orders.asks.contains(n);
            let bid = market.resting_limit_orders.bids.contains(n)
                || market.floating_limit_orders.bids.contains(n);
            out.contains(Fill { node: n, makers: Seq::empty() }) <==> !search.is_amm_paused
                && may_be_filled_from_outside(search, n) && ((ask && search.fallback_bid is Some
                && price < less_rebate(search.fallback_bid->0, rebate)) || (bid
                && search.fallback_ask is Some && price > less_rebate(
                search.fallback_ask->0,
                rebate,
            )))
        }),
{
    let crossing = lemma_search_of_resting_orders(search, rebate, before, after, out);
    let asks = resting_asks_filled(search, rebate, after);
    let bids = resting_bids_filled(search, rebate, after);
    let fill = Fill { node: n, makers: Seq::<Node>::empty() };
    let brought = lemma_search_for_crossing_orders(
        search.market_type,
        search.market_index,
        search.oracle,
        search.slot,
        before,
        after,
        crossing,
    );
    lemma_in_sum(crossing + asks, bids, fill);
    lemma_in_sum(crossing, asks, fill);
    if crossing.contains(fill) {
        let i = choose|i: int| 0 <= i < crossing.len() && crossing[i] == fill;
        assert(crossing[i].makers.len() == 1);
    }
    lemma_makers_of_a_side(
        after,
        search.market_type,
        search.market_index,
        search.oracle,
        search.slot,
        n,
    );
    if let Some(price) = search.live_bid() {
        let left = less_rebate(price, rebate) as u64;
        lemma_rebate(price, rebate);
        assert(left == less_rebate(price, rebate));
        lemma_alone_in(
            asks,
            quotes(after, search.asks(), search.oracle, search.slot),
            PriceTest::Below(left),
            search,
            n,
        );
    }
    if let Some(price) = search.live_ask() {
        let left = less_rebate(price, rebate) as u64;
        lemma_rebate(price, rebate);
        assert(left == less_rebate(price, rebate));
        lemma_alone_in(
            bids,
            quotes(after, search.bids(), search.oracle, search.slot),
            PriceTest::Above(left),
            search,
            n,
        );
    }
}

/// What a search of the resting orders is: a search for crossing orders, and then what
/// liquidity from outside the book can fill of the asks and of the bids.
pub proof fn lemma_search_of_resting_orders(
    search: FillSearch,
    rebate: (u64, u64),
    before: BookView,
    after: BookView,
    out: Seq<Fill>,
) -> (crossing: Seq<Fill>)
    requires
        resting_found(search, rebate, before, after, out),
    ensures
        crossing_found(
            search.market_type,
            search.market_index,
            search.oracle,
            search.slot,
            before,
            after,
            crossing,
        ),
        crossing.is_prefix_of(out),
        out == crossing + resting_asks_filled(search, rebate, after) + resting_bids_filled(
            search,
            rebate,
            after,
        ),
        forall|i: int|
            crossing.len() <= i < out.len() ==> (#[trigger] out[i]).makers.len() == 0,
{
    let crossing = choose|crossing: Seq<Fill>| #[trigger]
        crossing_found(
            search.market_type,
            search.market_index,
            search.oracle,
            search.slot,
            before,
            after,
            crossing,
        ) && out == crossing + resting_asks_filled(search, rebate, after) + resting_bids_filled(
            search,
            rebate,
            after,
        );
    let asks = resting_asks_filled(search, rebate, after);
    let bids = resting_bids_filled(search, rebate, after);
    assert forall|i: int| crossing.len() <= i < out.len() implies (
    #[trigger] out[i]).makers.len() == 0 by {
        if i < crossing.len() + asks.len() {
            assert(out[i] == asks[i - crossing.len()]);
        } else {
            assert(out[i] == bids[i - crossing.len() - asks.len()]);
        }
    }
    crossing
}

/// What a search of the orders that take is: the book is brought to the slot, its asks
/// that take are matched in turn with the bids that make, held against the fallback
/// bid, and then its bids that take with the asks that make, held against the fallback
/// ask. What liquidity from outside the book can fill comes last, without makers.
pub proof fn lemma_search_of_taking_orders(
    search: FillSearch,
    before: BookView,
    after: BookView,
    out: Seq<Fill>,
) -> (steps: (BookView, BookView, Seq<Fill>, Seq<Fill>))
    requires
        taking_found(search, before, after, out),
    ensures
        ({
            let (brought, between, asks_out, bids_out) = steps;
            let market_type = search.market_type;
            let market_index = search.market_index;
            let asks = Side { market_type, market_index, sub_type: SubType::Ask };
            let bids = Side { market_type, market_index, sub_type: SubType::Bid };
            &&& brought_to(before, search.slot, brought)
            &&& all_matched(
                MatchRule::Taking {
                    market_type,
                    taker_side: SubType::Ask,
                    fallback: search.fallback_bid,
                },
                brought,
                bids,
                takers(brought, asks),
                search.oracle,
                search.slot,
                between,
                asks_out,
            )
            &&& all_matched(
                MatchRule::Taking {
                    market_type,
                    taker_side: SubType::Bid,
                    fallback: search.fallback_ask,
                },
                between,
                asks,
                takers(between, bids),
                search.oracle,
                search.slot,
                after,
                bids_out,
            )
            &&& (asks_out + bids_out).is_prefix_of(out)
            &&& out == asks_out + bids_out + taking_asks_filled(search, after)
                + taking_bids_filled(search, after)
            &&& forall|i: int|
                0 <= i < asks_out.len() + bids_out.len() ==> (#[trigger] out[i]).makers.len() == 1
                    && out[i].node.user_account != out[i].makers[0].user_account
            &&& forall|i: int|
                asks_out.len() + bids_out.len() <= i < out.len() ==> (
                #[trigger] out[i]).makers.len() == 0
        }),
{
    let (brought, between, asks_out, bids_out) = choose|
        brought: BookView,
        between: BookView,
        asks_out: Seq<Fill>,
        bids_out: Seq<Fill>,
    |
        brought_to(before, search.slot, brought) && #[trigger] sides_matched(
            search,
            brought,
            between,
            asks_out,
            after,
            bids_out,
        ) && out == asks_out + bids_out + taking_asks_filled(search, after) + taking_bids_filled(
            search,
            after,
        );
    lemma_one_maker_each(
        search.ask_rule(),
        brought,
        search.bids(),
        takers(brought, search.asks()),
        search.oracle,
        search.slot,
        between,
        asks_out,
    );
    lemma_one_maker_each(
        search.bid_rule(),
        between,
        search.asks(),
        takers(between, search.bids()),
        search.oracle,
        search.slot,
        after,
        bids_out,
    );
    let asks = taking_asks_filled(search, after);
    let bids = taking_bids_filled(search, after);
    let matched = asks_out.len() + bids_out.len();
    assert forall|i: int| 0 <= i < matched implies (#[trigger] out[i]).makers.len() == 1
        && out[i].node.user_account != out[i].makers[0].user_account by {
        if i < asks_out.len() {
            assert(out[i] == asks_out[i]);
        } else {
            assert(out[i] == bids_out[i - asks_out.len()]);
        }
    }
    assert forall|i: int| matched <= i < out.len() implies (#[trigger] out[i]).makers.len()
        == 0 by {
        if i < matched + asks.len() {
            assert(out[i] == asks[i - matched]);
        } else {
            assert(out[i] == bids[i - matched - asks.len()]);
        }
    }
    (brought, between, asks_out, bids_out)
}

/// What a search of the orders that take yields without makers. It is the asks that
/// take and want at most the fallback bid, and the bids that take and pay more than
/// the fallback ask, as far as liquidity from outside the book may fill them and the
/// AMM is not paused.
pub proof fn lemma_taking_orders_filled_from_outside(
    search: FillSearch,
    before: BookView,
    after: BookView,
    out: Seq<Fill>,
    n: Node,
)
    requires
        taking_found(search, before, after, out),
    ensures
        ({
            let market = after.market(search.market_type, search.market_index);
            let price = n.price(search.oracle, search.slot);
            let ask = market.taking_limit_orders.asks.contains(n)
                || market.market_orders.asks.contains(n);
            let bid = market.taking_limit_orders.bids.contains(n)
                || market.market_orders.bids.contains(n);
            out.contains(Fill { node: n, makers: Seq::empty() }) <==> !search.is_amm_paused
                && may_be_filled_from_outside(search, n) && ((ask && search.fallback_bid is Some
                && price <= search.fallback_bid->0) || (bid && search.fallback_ask is Some && price
                > search.fallback_ask->0))
        }),
{
    let (brought, between, asks_out, bids_out) = lemma_search_of_taking_orders(
        search,
        before,
        after,
        out,
    );
    let asks = taking_asks_filled(search, after);
    let bids = taking_bids_filled(search, after);
    let fill = Fill { node: n, makers: Seq::<Node>::empty() };
    lemma_in_sum(asks_out + bids_out + asks, bids, fill);
    lemma_in_sum(asks_out + bids_out, asks, fill);
    if (asks_out + bids_out).contains(fill) {
        let both = asks_out + bids_out;
        let i = choose|i: int| 0 <= i < both.len() && both[i] == fill;
        assert(out[i] == fill);
        assert(out[i].makers.len() == 1);
    }
    lemma_takers_of_a_side(after, search.market_type, search.market_index, n);
    if let Some(price) = search.live_bid() {
        lemma_alone_in(asks, takers(after, search.asks()), PriceTest::AtMost(price), search, n);
    }
    if let Some(price) = search.live_ask() {
        lemma_alone_in(bids, takers(after, search.bids()), PriceTest::Above(price), search, n);
    }
}

proof fn lemma_makers_are_listed(nodes: Seq<Fill>, signature: Seq<char>, j: int)
    requires
        0 <= j < nodes.len(),
        nodes[j].node.signature() == signature,
    ensures
        makers_listed(nodes, signature).len() >= nodes[j].makers.len(),
        forall|m: Node| #[trigger]
            nodes[j].makers.contains(m) ==> makers_listed(nodes, signature).contains(m),
    decreases nodes.len(),
{
    let rest = nodes.drop_last();
    let last = nodes.last();
    let before = makers_listed(rest, signature);
    let all = makers_listed(nodes, signature);
    if j < rest.len() {
        assert(rest[j] == nodes[j]);
        lemma_makers_are_listed(rest, signature, j);
        assert forall|m: Node| #[trigger] nodes[j].makers.contains(m) implies all.contains(m) by {
            assert(rest[j].makers.contains(m));
            let i = choose|i: int| 0 <= i < before.len() && before[i] == m;
            assert(all[i] == m);
        }
    } else {
        assert forall|m: Node| #[trigger] nodes[j].makers.contains(m) implies all.contains(m) by {
            let i = choose|i: int| 0 <= i < last.makers.len() && last.makers[i] == m;
            assert(all[before.len() + i] == m);
        }
    }
}

proof fn lemma_listed_maker(nodes: Seq<Fill>, signature: Seq<char>, m: Node) -> (j: int)
    requires
        makers_listed(nodes, signature).contains(m),
    ensures
        0 <= j < nodes.len(),
        nodes[j].node.signature() == signature,
        nodes[j].makers.contains(m),
    decreases nodes.len(),
{
    let all = makers_listed(nodes, signature);
    let i = choose|i: int| 0 <= i < all.len() && all[i] == m;
    let rest = nodes.drop_last();
    let before = makers_listed(rest, signature);
    if nodes.last().node.signature() == signature && i >= before.len() {
        assert(nodes.last().makers[i - before.len()] == m);
        nodes.len() - 1
    } else {
        assert(before[i] == m);
        assert(before.contains(m));
        let j = lemma_listed_maker(rest, signature, m);
        assert(rest[j] == nodes[j]);
        j
    }
}

/// What a search of a market is: a search of its resting orders and one of those that
/// take, on the book that the first leaves. Everything that either yields is named,
/// with its makers; nothing else is, and no order twice. The orders that were expired
/// before the search come last.
pub proof fn lemma_search_of_a_market(
    search: FillSearch,
    rebate: (u64, u64),
    ts: i64,
    before: BookView,
    after: BookView,
    out: Seq<Fill>,
) -> (steps: (BookView, Seq<Fill>, Seq<Fill>))
    requires
        fills_found(search, rebate, ts, before, after, out),
    ensures
        ({
            let (between, resting_out, taking_out) = steps;
            let expired_out = expired_fills(
                before.market(search.market_type, search.market_index),
                ts,
            );
            &&& resting_found(search, rebate, before, between, resting_out)
            &&& taking_found(search, between, after, taking_out)
            &&& out.len() >= expired_out.len()
            &&& out.skip(out.len() - expired_out.len()) == expired_out
            &&& forall|j: int|
                0 <= j < resting_out.len() ==> is_named(out, #[trigger] resting_out[j])
            &&& forall|j: int| 0 <= j < taking_out.len() ==> is_named(out, #[trigger] taking_out[j])
            &&& out.len() - expired_out.len() <= resting_out.len() + taking_out.len()
            &&& forall|k: int|
                0 <= k < out.len() - expired_out.len() ==> comes_from(
                    resting_out + taking_out,
                    #[trigger] out[k],
                )
            &&& forall|k: int, l: int|
                0 <= k < l < out.len() - expired_out.len() ==> (
                #[trigger] out[k]).node.signature() != (#[trigger] out[l]).node.signature()
        }),
{
    let expired_out = expired_fills(before.market(search.market_type, search.market_index), ts);
    let (between, resting_out, taking_out) = choose|
        between: BookView,
        resting_out: Seq<Fill>,
        taking_out: Seq<Fill>,
    | #[trigger]
        resting_found(search, rebate, before, between, resting_out) && #[trigger] taking_found(
            search,
            between,
            after,
            taking_out,
        ) && out == merged(resting_out + taking_out) + expired_out;
    let all = resting_out + taking_out;
    let live = merged(all);
    lemma_merged(all);
    lemma_merged_is_no_longer(all);
    assert(out.skip(out.len() - expired_out.len()) =~= expired_out);
    assert forall|j: int| 0 <= j < all.len() implies is_named(out, #[trigger] all[j]) by {
        let signature = all[j].node.signature();
        assert(names(all, signature));
        assert(names(live, signature));
        let k = choose|k: int| 0 <= k < live.len() && (#[trigger] live[k]).node.signature()
            == signature;
        assert(live[k].makers == makers_listed(all, live[k].node.signature()));
        lemma_makers_are_listed(all, signature, j);
        assert(out[k] == live[k]);
    }
    assert forall|j: int| 0 <= j < resting_out.len() implies is_named(
        out,
        #[trigger] resting_out[j],
    ) by {
        assert(all[j] == resting_out[j]);
    }
    assert forall|j: int| 0 <= j < taking_out.len() implies is_named(
        out,
        #[trigger] taking_out[j],
    ) by {
        assert(all[resting_out.len() + j] == taking_out[j]);
    }
    assert forall|k: int| 0 <= k < live.len() implies comes_from(all, #[trigger] out[k]) by {
        assert(out[k] == live[k]);
        assert(is_first_node(all, live[k].node));
        assert(live[k].makers == makers_listed(all, live[k].node.signature()));
        let j = choose|j: int|
            0 <= j < all.len() && all[j].node == live[k].node && #[trigger] occurs_first(all, j);
        assert forall|m: Node| #[trigger] out[k].makers.contains(m) implies is_maker_in(
            all,
            out[k].node.signature(),
            m,
        ) by {
            let l = lemma_listed_maker(all, out[k].node.signature(), m);
            assert(all[l].makers.contains(m));
        }
        assert(all[j].node == out[k].node);
        assert forall|l: int| 0 <= l < j implies (#[trigger] all[l]).node.signature()
            != out[k].node.signature() by {}
        if out[k].makers.len() == 0 {
            assert forall|l: int|
                0 <= l < all.len() && (#[trigger] all[l]).node.signature()
                    == out[k].node.signature() implies all[l].makers.len() == 0 by {
                lemma_makers_are_listed(all, out[k].node.signature(), l);
            }
        }
    }
    assert forall|k: int, l: int| 0 <= k < l < live.len() implies (
    #[trigger] out[k]).node.signature() != (#[trigger] out[l]).node.signature() by {
        assert(out[k] == live[k] && out[l] == live[l]);
    }
    (between, resting_out, taking_out)
}

/// Whether one of the fills has the signature of `fill` and its makers.
pub open spec fn is_named(out: Seq<Fill>, fill: Fill) -> bool {
    exists|k: int|
        0 <= k < out.len() && (#[trigger] out[k]).node.signature() == fill.node.signature()
            && forall|m: Node| #[trigger]
            fill.makers.contains(m) ==> out[k].makers.contains(m)
}

/// Whether a maker is listed with a signature.
pub open spec fn is_maker_in(parts: Seq<Fill>, signature: Seq<char>, m: Node) -> bool {
    exists|l: int|
        0 <= l < parts.len() && (#[trigger] parts[l]).node.signature() == signature
            && parts[l].makers.contains(m)
}

/// Whether a fill is put together from `parts`: its node is that of the first of them
/// with its signature, and its makers are all that are listed there with its signature,
/// in their order.
pub open spec fn comes_from(parts: Seq<Fill>, fill: Fill) -> bool {
    &&& exists|j: int|
        0 <= j < parts.len() && (#[trigger] parts[j]).node == fill.node && forall|l: int|
            0 <= l < j ==> (#[trigger] parts[l]).node.signature() != fill.node.signature()
    &&& fill.makers == makers_listed(parts, fill.node.signature())
    &&& forall|m: Node| #[trigger]
        fill.makers.contains(m) ==> is_maker_in(parts, fill.node.signature(), m)
    &&& fill.makers.len() == 0 ==> forall|l: int|
        0 <= l < parts.len() && (#[trigger] parts[l]).node.signature() == fill.node.signature()
            ==> parts[l].makers.len() == 0
}

proof fn lemma_merged_is_no_longer(nodes: Seq<Fill>)
    ensures
        merged(nodes).len() <= nodes.len(),
    decreases nodes.len(),
{
    if nodes.len() > 0 {
        lemma_merged_is_no_longer(nodes.drop_last());
    }
}

/// What a search of a market yields without makers. Each such order is expired, or may
/// be filled from outside the book: the AMM is not paused; in a perp market the order
/// was placed more than the minimal auction of the exchange ago, in a spot market it
/// is not post-only; and its price is at most the fallback bid or more than what the
/// rebate leaves of the fallback ask.
pub proof fn lemma_fills_without_makers<M: MarketOperations>(
    market: &M,
    state: State,
    slot: u64,
    oracle: OraclePriceData,
    fallback_bid: Option<u64>,
    fallback_ask: Option<u64>,
    ts: i64,
    before: BookView,
    after: BookView,
    out: Seq<Fill>,
    i: int,
)
    requires
        fills_found(
            search_under(market, state, slot, oracle, fallback_bid, fallback_ask),
            market.maker_rebate(state),
            ts,
            before,
            after,
            out,
        ),
        !market.amm_is_paused(state) ==> (fallback_bid matches Some(price) ==> rebate_in_range(
            price,
            market.maker_rebate(state),
        )),
        !market.amm_is_paused(state) ==> (fallback_ask matches Some(price) ==> rebate_in_range(
            price,
            market.maker_rebate(state),
        )),
        0 <= i < out.len(),
        out[i].makers.len() == 0,
        !expired(out[i].node.order, ts, true),
    ensures
        !market.amm_is_paused(state),
        market.kind() == MarketType::Perp ==> state.min_perp_auction_duration == 0
            || out[i].node.order.slot + state.min_perp_auction_duration < slot,
        market.kind() == MarketType::Spot ==> !out[i].node.order.post_only,
        ({
            let price = out[i].node.price(oracle, slot);
            (fallback_bid is Some && price <= fallback_bid->0) || (fallback_ask is Some && price
                > less_rebate(fallback_ask->0, market.maker_rebate(state)))
        }),
{
    let search = search_under(market, state, slot, oracle, fallback_bid, fallback_ask);
    let rebate = market.maker_rebate(state);
    let (between, resting_out, taking_out) = lemma_search_of_a_market(
        search,
        rebate,
        ts,
        before,
        after,
        out,
    );
    let home = before.market(search.market_type, search.market_index);
    let expired_out = expired_fills(home, ts);
    let live = out.len() - expired_out.len();
    if i >= live {
        assert(out.skip(live)[i - live] == out[i]);
        lemma_every_expired_order_comes_up(home, ts);
        assert(expired_out[i - live] == out[i]);
        assert(false);
    }
    let n = out[i].node;
    let all = resting_out + taking_out;
    assert(comes_from(all, out[i]));
    let j = choose|j: int| 0 <= j < all.len() && (#[trigger] all[j]).node == n;
    assert(all[j].makers.len() == 0);
    let fill = Fill { node: n, makers: Seq::<Node>::empty() };
    assert(all[j] =~= fill);
    if let Some(price) = search.live_bid() {
        lemma_rebate(price, rebate);
    }
    if let Some(price) = search.live_ask() {
        lemma_rebate(price, rebate);
        assert(less_rebate(price, rebate) <= price);
    }
    if j < resting_out.len() {
        assert(resting_out[j] == fill);
        assert(resting_out.contains(fill));
        lemma_resting_orders_filled_from_outside(
            search,
            rebate,
            before,
            between,
            resting_out,
            n,
        );
    } else {
        assert(taking_out[j - resting_out.len()] == fill);
        assert(taking_out.contains(fill));
        lemma_taking_orders_filled_from_outside(search, between, after, taking_out, n);
    }
}

/// Whether a node is among the orders of a market that make, on a side.
pub open spec fn makes(market: MarketView, sub_type: SubType, n: Node) -> bool {
    match sub_type {
        SubType::Bid => market.resting_limit_orders.bids.contains(n)
            || market.floating_limit_orders.bids.contains(n),
        SubType::Ask => market.resting_limit_orders.asks.contains(n)
            || market.floating_limit_orders.asks.contains(n),
    }
}

/// Whether a node is among the orders of a market that take, on a side.
pub open spec fn takes(market: MarketView, sub_type: SubType, n: Node) -> bool {
    match sub_type {
        SubType::Bid => market.taking_limit_orders.bids.contains(n)
            || market.market_orders.bids.contains(n),
        SubType::Ask => market.taking_limit_orders.asks.contains(n)
            || market.market_orders.asks.contains(n),
    }
}

/// A search that finds nothing has missed nothing. The book is no more than brought to
/// the slot. No order was expired. In the book as it then is no bid that makes pays
/// what an ask of another account that makes wants, unless both are post-only; no maker
/// is good for an order that takes; and no order is one that liquidity from outside the
/// book fills.
pub proof fn lemma_empty_search_misses_nothing(
    search: FillSearch,
    rebate: (u64, u64),
    ts: i64,
    before: BookView,
    after: BookView,
    out: Seq<Fill>,
)
    requires
        fills_found(search, rebate, ts, before, after, out),
        !search.is_amm_paused ==> (search.fallback_bid matches Some(price) ==> rebate_in_range(
            price,
            rebate,
        )),
        !search.is_amm_paused ==> (search.fallback_ask matches Some(price) ==> rebate_in_range(
            price,
            rebate,
        )),
        out.len() == 0,
    ensures
        brought_to(before, search.slot, after),
        forall|n: Node| #[trigger]
            can_come_up(before.market(search.market_type, search.market_index), n) ==> !expired(
                n.order,
                ts,
                true,
            ),
        ({
            let market = after.market(search.market_type, search.market_index);
            let oracle = search.oracle;
            let slot = search.slot;
            &&& forall|a: Node, b: Node| #[trigger]
                makes(market, SubType::Ask, a) && #[trigger] makes(market, SubType::Bid, b)
                    && a.user_account != b.user_account && !(a.order.post_only
                    && b.order.post_only) ==> b.price(oracle, slot) < a.price(oracle, slot)
            &&& forall|a: Node, b: Node| #[trigger]
                takes(market, SubType::Ask, a) && #[trigger] makes(market, SubType::Bid, b)
                    && a.user_account != b.user_account && (search.market_type == MarketType::Perp
                    || search.fallback_bid is None || b.price(oracle, slot)
                    >= search.fallback_bid->0) ==> b.price(oracle, slot) < a.price(oracle, slot)
            &&& forall|a: Node, b: Node| #[trigger]
                makes(market, SubType::Ask, a) && #[trigger] takes(market, SubType::Bid, b)
                    && a.user_account != b.user_account && (search.market_type == MarketType::Perp
                    || search.fallback_ask is None || a.price(oracle, slot)
                    <= search.fallback_ask->0) ==> b.price(oracle, slot) < a.price(oracle, slot)
            &&& forall|a: Node| #[trigger]
                makes(market, SubType::Ask, a) && !search.is_amm_paused && search.fallback_bid
                    is Some && may_be_filled_from_outside(search, a) ==> a.price(oracle, slot)
                    >= less_rebate(search.fallback_bid->0, rebate)
            &&& forall|b: Node| #[trigger]
                makes(market, SubType::Bid, b) && !search.is_amm_paused && search.fallback_ask
                    is Some && may_be_filled_from_outside(search, b) ==> b.price(oracle, slot)
                    <= less_rebate(search.fallback_ask->0, rebate)
            &&& forall|a: Node| #[trigger]
                takes(market, SubType::Ask, a) && !search.is_amm_paused && search.fallback_bid
                    is Some && may_be_filled_from_outside(search, a) ==> a.price(oracle, slot)
                    > search.fallback_bid->0
            &&& forall|b: Node| #[trigger]
                takes(market, SubType::Bid, b) && !search.is_amm_paused && search.fallback_ask
                    is Some && may_be_filled_from_outside(search, b) ==> b.price(oracle, slot)
                    <= search.fallback_ask->0
        }),
{
    let market_type = search.market_type;
    let market_index = search.market_index;
    let oracle = search.oracle;
    let slot = search.slot;
    let asks = Side { market_type, market_index, sub_type: SubType::Ask };
    let bids = Side { market_type, market_index, sub_type: SubType::Bid };
    let (between, resting_out, taking_out) = lemma_search_of_a_market(
        search,
        rebate,
        ts,
        before,
        after,
        out,
    );
    if resting_out.len() > 0 {
        assert(is_named(out, resting_out[0]));
    }
    if taking_out.len() > 0 {
        assert(is_named(out, taking_out[0]));
    }
    let crossing = lemma_search_of_resting_orders(search, rebate, before, between, resting_out);
    let brought = lemma_search_for_crossing_orders(
        market_type,
        market_index,
        oracle,
        slot,
        before,
        between,
        crossing,
    );
    lemma_no_fill_means_no_pair(
        MatchRule::Crossing,
        brought,
        bids,
        quotes(brought, asks, oracle, slot),
        oracle,
        slot,
        between,
        crossing,
    );
    let (again, middle, asks_out, bids_out) = lemma_search_of_taking_orders(
        search,
        between,
        after,
        taking_out,
    );
    assert(again == between);
    let ask_rule = MatchRule::Taking {
        market_type,
        taker_side: SubType::Ask,
        fallback: search.fallback_bid,
    };
    let bid_rule = MatchRule::Taking {
        market_type,
        taker_side: SubType::Bid,
        fallback: search.fallback_ask,
    };
    lemma_no_fill_means_no_pair(
        ask_rule,
        between,
        bids,
        takers(between, asks),
        oracle,
        slot,
        middle,
        asks_out,
    );
    lemma_no_fill_means_no_pair(
        bid_rule,
        between,
        asks,
        takers(between, bids),
        oracle,
        slot,
        after,
        bids_out,
    );
    assert(after == brought);
    let home = before.market(market_type, market_index);
    lemma_every_expired_order_comes_up(home, ts);
    assert forall|n: Node| #[trigger] can_come_up(home, n) implies !expired(n.order, ts, true) by {
        if expired(n.order, ts, true) {
            assert(expired_fills(home, ts).contains(Fill { node: n, makers: Seq::empty() }));
        }
    }
    let market = after.market(market_type, market_index);
    assert forall|a: Node, b: Node| #[trigger]
        makes(market, SubType::Ask, a) && #[trigger] makes(market, SubType::Bid, b)
            && a.user_account != b.user_account && !(a.order.post_only
            && b.order.post_only) implies b.price(oracle, slot) < a.price(oracle, slot) by {
        lemma_makers_of_a_side(after, market_type, market_index, oracle, slot, a);
        lemma_makers_of_a_side(after, market_type, market_index, oracle, slot, b);
        lemma_which_orders_pair(market_type, None, a, b, oracle, slot);
        assert(!MatchRule::Crossing.pairs(a, b, oracle, slot));
    }
    assert forall|a: Node, b: Node| #[trigger]
        takes(market, SubType::Ask, a) && #[trigger] makes(market, SubType::Bid, b)
            && a.user_account != b.user_account && (search.market_type == MarketType::Perp
            || search.fallback_bid is None || b.price(oracle, slot)
            >= search.fallback_bid->0) implies b.price(oracle, slot) < a.price(oracle, slot) by {
        lemma_takers_of_a_side(after, market_type, market_index, a);
        lemma_makers_of_a_side(after, market_type, market_index, oracle, slot, b);
        lemma_which_orders_pair(market_type, search.fallback_bid, a, b, oracle, slot);
        assert(!ask_rule.pairs(a, b, oracle, slot));
    }
    assert forall|a: Node, b: Node| #[trigger]
        makes(market, SubType::Ask, a) && #[trigger] takes(market, SubType::Bid, b)
            && a.user_account != b.user_account && (search.market_type == MarketType::Perp
            || search.fallback_ask is None || a.price(oracle, slot)
            <= search.fallback_ask->0) implies b.price(oracle, slot) < a.price(oracle, slot) by {
        lemma_takers_of_a_side(after, market_type, market_index, b);
        lemma_makers_of_a_side(after, market_type, market_index, oracle, slot, a);
        lemma_which_orders_pair(market_type, search.fallback_ask, b, a, oracle, slot);
        assert(!bid_rule.pairs(b, a, oracle, slot));
    }
    assert forall|a: Node| #[trigger]
        makes(market, SubType::Ask, a) && !search.is_amm_paused && search.fallback_bid is Some
            && may_be_filled_from_outside(search, a) implies a.price(oracle, slot) >= less_rebate(
        search.fallback_bid->0,
        rebate,
    ) by {
        lemma_resting_orders_filled_from_outside(search, rebate, before, between, resting_out, a);
    }
    assert forall|b: Node| #[trigger]
        makes(market, SubType::Bid, b) && !search.is_amm_paused && search.fallback_ask is Some
            && may_be_filled_from_outside(search, b) implies b.price(oracle, slot) <= less_rebate(
        search.fallback_ask->0,
        rebate,
    ) by {
        lemma_resting_orders_filled_from_outside(search, rebate, before, between, resting_out, b);
    }
    assert forall|a: Node| #[trigger]
        takes(market, SubType::Ask, a) && !search.is_amm_paused && search.fallback_bid is Some
            && may_be_filled_from_outside(search, a) implies a.price(oracle, slot)
        > search.fallback_bid->0 by {
        lemma_taking_orders_filled_from_outside(search, between, after, taking_out, a);
    }
    assert forall|b: Node| #[trigger]
        takes(market, SubType::Bid, b) && !search.is_amm_paused && search.fallback_ask is Some
            && may_be_filled_from_outside(search, b) implies b.price(oracle, slot)
        <= search.fallback_ask->0 by {
        lemma_taking_orders_filled_from_outside(search, between, after, taking_out, b);
    }
}

/// Every order that takes, that liquidity from outside the book fills once the search
/// is over, is named by the search.
pub proof fn lemma_search_names_what_the_outside_fills(
    search: FillSearch,
    rebate: (u64, u64),
    ts: i64,
    before: BookView,
    after: BookView,
    out: Seq<Fill>,
    n: Node,
)
    requires
        fills_found(search, rebate, ts, before, after, out),
        !search.is_amm_paused,
        may_be_filled_from_outside(search, n),
        ({
            let market = after.market(search.market_type, search.market_index);
            let price = n.price(search.oracle, search.slot);
            ||| takes(market, SubType::Ask, n) && search.fallback_bid is Some && price
                <= search.fallback_bid->0
            ||| takes(market, SubType::Bid, n) && search.fallback_ask is Some && price
                > search.fallback_ask->0
        }),
    ensures
        exists|k: int|
            0 <= k < out.len() && (#[trigger] out[k]).node.signature() == n.signature(),
{
    let (between, resting_out, taking_out) = lemma_search_of_a_market(
        search,
        rebate,
        ts,
        before,
        after,
        out,
    );
    lemma_taking_orders_filled_from_outside(search, between, after, taking_out, n);
    let fill = Fill { node: n, makers: Seq::<Node>::empty() };
    let j = choose|j: int| 0 <= j < taking_out.len() && taking_out[j] == fill;
    assert(is_named(out, taking_out[j]));
}

/// Every expired order of the market outside its trigger lists is named by a search.
pub proof fn lemma_search_names_what_is_expired(
    search: FillSearch,
    rebate: (u64, u64),
    ts: i64,
    before: BookView,
    after: BookView,
    out: Seq<Fill>,
    n: Node,
)
    requires
        fills_found(search, rebate, ts, before, after, out),
        can_come_up(before.market(search.market_type, search.market_index), n),
        expired(n.order, ts, true),
    ensures
        out.contains(Fill { node: n, makers: Seq::empty() }),
{
    let steps = lemma_search_of_a_market(search, rebate, ts, before, after, out);
    let home = before.market(search.market_type, search.market_index);
    let expired_out = expired_fills(home, ts);
    let fill = Fill { node: n, makers: Seq::<Node>::empty() };
    let live = out.len() - expired_out.len();
    lemma_every_expired_order_comes_up(home, ts);
    assert(expired_out.contains(fill));
    let j = choose|j: int| 0 <= j < expired_out.len() && expired_out[j] == fill;
    assert(out.skip(live)[j] == fill);
    assert(out[live + j] == fill);
}

/// Nothing is triggered unless the exchange is active, which is to say that its status
/// is zero; then it is what the price triggers.
pub proof fn lemma_triggers_wait_for_the_exchange(
    market: MarketView,
    oracle_price: u64,
    exchange_status: u8,
)
    ensures
        exchange_status != 0 ==> nodes_triggered_under(
            market,
            oracle_price,
            exchange_status,
        ).len() == 0,
        exchange_status == 0 ==> nodes_triggered_under(market, oracle_price, exchange_status)
            == nodes_triggered(market, oracle_price),
{
}

/// Which orders a price triggers: of those that wait for it to rise the ones whose
/// trigger price lies below it, of those that wait for it to fall the ones whose
/// trigger price lies above it, and no other. They come in the order of their queues,
/// those that wait for a rise first.
pub proof fn lemma_what_a_price_triggers(
    book: BookView,
    market_type: MarketType,
    market_index: u16,
    oracle_price: u64,
    n: Node,
)
    requires
        book.sound(),
        book.has_market(market_type, market_index),
    ensures
        ({
            let market = book.market(market_type, market_index);
            let out = nodes_triggered(market, oracle_price);
            &&& out.contains(n) <==> (market.trigger_orders.bids.contains(n)
                && n.order.trigger_price < oracle_price) || (market.trigger_orders.asks.contains(n)
                && n.order.trigger_price > oracle_price)
            &&& out == market.trigger_orders.bids.filter(
                |m: Node| m.order.trigger_price < oracle_price,
            ) + market.trigger_orders.asks.filter(|m: Node| m.order.trigger_price > oracle_price)
        }),
{
    let market = book.market(market_type, market_index);
    let out = nodes_triggered(market, oracle_price);
    let below = |m: Node| m.order.trigger_price < oracle_price;
    let above = |m: Node| m.order.trigger_price > oracle_price;
    assert(fires_below(oracle_price) =~= below);
    assert(fires_above(oracle_price) =~= above);
    lemma_no_trigger_is_missed(book, market_type, market_index, oracle_price);
    lemma_queues_of_a_market(market);
    let rising = market.trigger_orders.bids.filter(below);
    let falling = market.trigger_orders.asks.filter(above);
    assert(out == rising + falling);
    lemma_filter_exactly(market.trigger_orders.bids, below, n);
    lemma_filter_exactly(market.trigger_orders.asks, above, n);
    if rising.contains(n) {
        let i = choose|i: int| 0 <= i < rising.len() && rising[i] == n;
        assert(out[i] == n);
    }
    if falling.contains(n) {
        let i = choose|i: int| 0 <= i < falling.len() && falling[i] == n;
        assert(out[rising.len() + i] == n);
    }
}

proof fn lemma_filter_exactly(nodes: Seq<Node>, keep: spec_fn(Node) -> bool, n: Node)
    ensures
        nodes.filter(keep).contains(n) <==> nodes.contains(n) && keep(n),
{
    let kept = nodes.filter(keep);
    if kept.contains(n) {
        let i = choose|i: int| 0 <= i < kept.len() && kept[i] == n;
        nodes.lemma_filter_pred(keep, i);
        nodes.lemma_filter_contains_rev(keep, n);
    }
    if nodes.contains(n) && keep(n) {
        let i = choose|i: int| 0 <= i < nodes.len() && nodes[i] == n;
        nodes.lemma_filter_contains(keep, i);
    }
}

/// Whether an order has nothing about it that a search could stumble on: it has a price,
/// is not filled beyond its size, and its auction ends in a slot that there is.
pub open spec fn is_plain(n: Node, oracle: OraclePriceData, slot: u64) -> bool {
    &&& n.priced(oracle, slot)
    &&& n.order.base_asset_amount_filled <= n.order.base_asset_amount
    &&& n.order.slot + n.order.auction_duration <= 0xFFFF_FFFF_FFFF_FFFF
}

/// Whether no order of a market stands in two of the lists of a side, the trigger list
/// aside.
pub open spec fn each_in_one_list(market: MarketView) -> bool {
    &&& apart(market.taking_limit_orders.bids, market.resting_limit_orders.bids)
    &&& apart(market.taking_limit_orders.bids, market.floating_limit_orders.bids)
    &&& apart(market.taking_limit_orders.bids, market.market_orders.bids)
    &&& apart(market.resting_limit_orders.bids, market.floating_limit_orders.bids)
    &&& apart(market.resting_limit_orders.bids, market.market_orders.bids)
    &&& apart(market.floating_limit_orders.bids, market.market_orders.bids)
    &&& apart(market.taking_limit_orders.asks, market.resting_limit_orders.asks)
    &&& apart(market.taking_limit_orders.asks, market.floating_limit_orders.asks)
    &&& apart(market.taking_limit_orders.asks, market.market_orders.asks)
    &&& apart(market.resting_limit_orders.asks, market.floating_limit_orders.asks)
    &&& apart(market.resting_limit_orders.asks, market.market_orders.asks)
    &&& apart(market.floating_limit_orders.asks, market.market_orders.asks)
}

/// A market whose orders are plain and each in one list is ready to be searched, in a
/// book that was brought to the slot.
pub proof fn lemma_plain_orders_are_ready(search: FillSearch, book: BookView)
    requires
        book.sound(),
        search.slot <= book.max_slot,
        book.has_market(search.market_type, search.market_index),
        each_in_one_list(book.market(search.market_type, search.market_index)),
        forall|n: Node| #[trigger]
            can_come_up(book.market(search.market_type, search.market_index), n) ==> is_plain(
                n,
                search.oracle,
                search.slot,
            ),
    ensures
        orders_ready(search, book),
{
    let market = book.market(search.market_type, search.market_index);
    let oracle = search.oracle;
    let slot = search.slot;
    let asks = quotes(book, search.asks(), oracle, slot);
    let bids = quotes(book, search.bids(), oracle, slot);
    lemma_queues_of_a_market(market);
    lemma_listed_once(book, search.asks());
    lemma_listed_once(book, search.bids());
    assert forall|n: Node|
        #![trigger asks.contains(n)]
        #![trigger bids.contains(n)]
        asks.contains(n) || bids.contains(n) implies is_plain(n, oracle, slot) by {
        lemma_makers_of_a_side(book, search.market_type, search.market_index, oracle, slot, n);
        assert(can_come_up(market, n));
    }
    let asks_taking = takers(book, search.asks());
    let bids_taking = takers(book, search.bids());
    assert forall|n: Node|
        #![trigger asks_taking.contains(n)]
        #![trigger bids_taking.contains(n)]
        asks_taking.contains(n) || bids_taking.contains(n) implies is_plain(n, oracle, slot) by {
        lemma_takers_of_a_side(book, search.market_type, search.market_index, n);
        assert(can_come_up(market, n));
    }
    assert forall|n: Node| #[trigger] will_quote(book, search.asks(), slot, n) implies n.priced(
        oracle,
        slot,
    ) by {
        assert(can_come_up(market, n));
    }
    assert forall|n: Node| #[trigger] will_quote(book, search.bids(), slot, n) implies n.priced(
        oracle,
        slot,
    ) by {
        assert(can_come_up(market, n));
    }
}

/// Such a market can be searched for resting orders to fill, for those that take, and
/// for all.
pub proof fn lemma_plain_orders_can_be_searched(
    search: FillSearch,
    rebate: (u64, u64),
    book: BookView,
)
    requires
        book.sound(),
        search.slot <= book.max_slot,
        book.has_market(search.market_type, search.market_index),
        each_in_one_list(book.market(search.market_type, search.market_index)),
        forall|n: Node| #[trigger]
            can_come_up(book.market(search.market_type, search.market_index), n) ==> is_plain(
                n,
                search.oracle,
                search.slot,
            ) && n.order.max_ts <= 0x7FFF_FFFF_FFFF_FFFF - 15,
        search.fallback_bid matches Some(price) ==> rebate_in_range(price, rebate),
        search.fallback_ask matches Some(price) ==> rebate_in_range(price, rebate),
    ensures
        crossing_ready(book, search.asks(), search.bids(), search.oracle, search.slot),
        resting_ready(search, rebate, book),
        taking_ready(search, book),
        fill_ready(search, rebate, book),
        can_start(search, rebate, book),
{
    let market = book.market(search.market_type, search.market_index);
    lemma_plain_orders_are_ready(search, book);
    lemma_ready_orders_can_be_searched(search, rebate, book);
    assert forall|node_type: NodeType, sub_type: SubType, n: Node|
        node_type != NodeType::Trigger && #[trigger] market.queue(node_type, sub_type).contains(
            n,
        ) implies expiry_in_range(n.order, true) by {
        lemma_queues_of_a_market(market);
        assert(can_come_up(market, n));
    }
    assert(expiries_in_range(market));
}

/// A tested search of such a market is made, and gives what an untested one does.
pub proof fn lemma_tested_search_is_made(
    search: FillSearch,
    rebate: (u64, u64),
    ts: i64,
    before: BookView,
    after: BookView,
    found: Option<Seq<Fill>>,
)
    requires
        tested_and_searched(search, rebate, ts, before, after, found),
        before.sound(),
        search.slot <= before.max_slot,
        before.has_market(search.market_type, search.market_index),
        each_in_one_list(before.market(search.market_type, search.market_index)),
        forall|n: Node| #[trigger]
            can_come_up(before.market(search.market_type, search.market_index), n) ==> is_plain(
                n,
                search.oracle,
                search.slot,
            ) && n.order.max_ts <= 0x7FFF_FFFF_FFFF_FFFF - 15,
        search.fallback_bid matches Some(price) ==> rebate_in_range(price, rebate),
        search.fallback_ask matches Some(price) ==> rebate_in_range(price, rebate),
    ensures
        found matches Some(out) && fills_found(search, rebate, ts, before, after, out),
{
    lemma_plain_orders_can_be_searched(search, rebate, before);
    lemma_plain_orders_are_ready(search, before);
}

/// A tested search that is not made does not touch an order: the book is as it was, or
/// brought to the slot. One that is made gives what an untested one does.
pub proof fn lemma_refused_search_fills_nothing(
    search: FillSearch,
    rebate: (u64, u64),
    ts: i64,
    before: BookView,
    after: BookView,
    found: Option<Seq<Fill>>,
)
    requires
        tested_and_searched(search, rebate, ts, before, after, found),
    ensures
        found is None ==> after == before || brought_to(before, search.slot, after),
        found matches Some(out) ==> fills_found(search, rebate, ts, before, after, out),
{
}

} // verus!
