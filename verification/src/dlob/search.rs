//! The search for orders that can be filled or triggered.

use vstd::prelude::*;

use crate::dlob::book::BookView;
use crate::dlob::dlob::DLOB;
use crate::dlob::market::MarketView;
use crate::dlob::matching::{
    all_matched, crosses_fallback, expired_fills, expired_nodes, expired_on_side, fallback_fills,
    fill_alone, MatchRule, PriceTest,
};
use crate::dlob::node::{fills, Fill, Node, NodeToFill, NodeToTrigger, NodeType, SubType};
use crate::dlob::quotes::{
    asks_of, bids_of, lemma_quotes_are_quoted, quotes, quotes_sortable, takers, will_quote, Side,
};
use crate::dlob::readiness::{
    asks_can_cross, crossing_ready, lemma_refilled_again, lemma_refilled_by_taking, nodes_can_match,
    nodes_meet_fallback, refilled,
};
use crate::dlob::resting::{brought_to, lemma_brought_to_is_sound};
use crate::dlob::utils::{merge_and_deduplicate_nodes, merged};
use crate::market_operations::MarketOperations;
use crate::math::auction::is_fallback_available;
use crate::math::order::{expired, expiry_in_range, get_limit_price, is_order_expired};
use crate::types::{MarketType, OraclePriceData, State, EXCHANGE_ACTIVE};

verus! {

/// Whether matching the resting asks of a market with its bids makes `before`
/// into `after` and yields `out`. The book is brought to `slot` first.
pub open spec fn crossing_found(
    market_type: MarketType,
    market_index: u16,
    oracle: OraclePriceData,
    slot: u64,
    before: BookView,
    after: BookView,
    out: Seq<Fill>,
) -> bool {
    exists|book: BookView| #[trigger]
        brought_to(before, slot, book) && all_matched(
            MatchRule::Crossing,
            book,
            bids_of(market_type, market_index),
            quotes(book, asks_of(market_type, market_index), oracle, slot),
            oracle,
            slot,
            after,
            out,
        )
}

/// Whether `after` is the book `before` brought to `slot` and changed by no more
/// than matches.
pub open spec fn brought_and_refilled(
    rule: MatchRule,
    oracle: OraclePriceData,
    slot: u64,
    before: BookView,
    after: BookView,
) -> bool {
    exists|book: BookView| #[trigger]
        brought_to(before, slot, book) && refilled(rule, book, after, oracle, slot)
}

/// Whether matching `nodes` with the makers of a side makes `before` into `after`
/// and yields `out`. Where there are nodes the book is brought to `slot` first.
pub open spec fn takers_matched(
    rule: MatchRule,
    makers: Side,
    nodes: Seq<Node>,
    oracle: OraclePriceData,
    slot: u64,
    before: BookView,
    after: BookView,
    out: Seq<Fill>,
) -> bool {
    if nodes.len() == 0 {
        after == before && out == Seq::<Fill>::empty()
    } else {
        exists|book: BookView| #[trigger]
            brought_to(before, slot, book) && all_matched(
                rule,
                book,
                makers,
                nodes,
                oracle,
                slot,
                after,
                out,
            )
    }
}

/// The rule by which the takers of a side are matched.
pub open spec fn taking_rule(
    market_type: MarketType,
    taker_side: SubType,
    fallback: Option<u64>,
) -> MatchRule {
    MatchRule::Taking { market_type, taker_side, fallback }
}

/// The side on which takers find their makers.
pub open spec fn makers_for(market_type: MarketType, market_index: u16, taker_side: SubType) -> Side {
    match taker_side {
        SubType::Bid => asks_of(market_type, market_index),
        SubType::Ask => bids_of(market_type, market_index),
    }
}

/// What a search for orders to fill looks at.
pub struct FillSearch {
    pub market_type: MarketType,
    pub market_index: u16,
    pub slot: u64,
    pub oracle: OraclePriceData,
    pub is_amm_paused: bool,
    pub min_auction_duration: u8,
    /// The price at which liquidity from outside the book buys.
    pub fallback_bid: Option<u64>,
    /// The price at which liquidity from outside the book sells.
    pub fallback_ask: Option<u64>,
}

impl FillSearch {
    pub open spec fn asks(self) -> Side {
        asks_of(self.market_type, self.market_index)
    }

    pub open spec fn bids(self) -> Side {
        bids_of(self.market_type, self.market_index)
    }

    /// The fallback bid, where the AMM is not paused.
    pub open spec fn live_bid(self) -> Option<u64> {
        if self.is_amm_paused {
            None
        } else {
            self.fallback_bid
        }
    }

    /// The fallback ask, where the AMM is not paused.
    pub open spec fn live_ask(self) -> Option<u64> {
        if self.is_amm_paused {
            None
        } else {
            self.fallback_ask
        }
    }

    /// The rule by which asks that take are matched.
    pub open spec fn ask_rule(self) -> MatchRule {
        taking_rule(self.market_type, SubType::Ask, self.fallback_bid)
    }

    /// The rule by which bids that take are matched.
    pub open spec fn bid_rule(self) -> MatchRule {
        taking_rule(self.market_type, SubType::Bid, self.fallback_ask)
    }

    /// The nodes that liquidity from outside the book can fill.
    pub open spec fn fallback_fills(self, nodes: Seq<Node>, test: PriceTest) -> Seq<Fill> {
        fallback_fills(
            self.market_type,
            self.slot,
            self.oracle,
            nodes,
            test,
            self.min_auction_duration,
        )
    }
}

/// The search of a market.
pub open spec fn search_of<M: MarketOperations>(
    market: &M,
    slot: u64,
    oracle: OraclePriceData,
    is_amm_paused: bool,
    min_auction_duration: u8,
    fallback_bid: Option<u64>,
    fallback_ask: Option<u64>,
) -> FillSearch {
    FillSearch {
        market_type: market.kind(),
        market_index: market.index(),
        slot,
        oracle,
        is_amm_paused,
        min_auction_duration,
        fallback_bid,
        fallback_ask,
    }
}

/// A price less the rebate that makers get of it.
pub open spec fn less_rebate(price: u64, rebate: (u64, u64)) -> int {
    price - (price * rebate.0) / (rebate.1 as int)
}

/// Whether the rebate of a price can be computed and is no more than the price.
pub open spec fn rebate_in_range(price: u64, rebate: (u64, u64)) -> bool {
    &&& rebate.1 != 0
    &&& price * rebate.0 <= u64::MAX
    &&& 0 <= less_rebate(price, rebate)
}

/// Whether the resting orders of a market can be searched for ones to fill: for
/// crossing ones and, with what these leave, for those that liquidity from outside
/// the book can fill.
pub open spec fn resting_ready(search: FillSearch, rebate: (u64, u64), book: BookView) -> bool {
    &&& crossing_ready(book, search.asks(), search.bids(), search.oracle, search.slot)
    &&& search.live_bid() matches Some(price) ==> rebate_in_range(price, rebate)
    &&& search.live_ask() matches Some(price) ==> rebate_in_range(price, rebate)
    &&& forall|after: BookView, out: Seq<Fill>| #[trigger]
        crossing_found(
            search.market_type,
            search.market_index,
            search.oracle,
            search.slot,
            book,
            after,
            out,
        ) ==> quotes_meet_fallback(search, after)
}

/// Whether the makers of a market can be held against the liquidity from outside
/// the book that there is.
pub open spec fn quotes_meet_fallback(search: FillSearch, book: BookView) -> bool {
    let asks = search.asks();
    let bids = search.bids();
    &&& search.live_bid() is Some ==> quotes_sortable(book, asks, search.oracle, search.slot)
        && nodes_meet_fallback(
        search.market_type,
        quotes(book, asks, search.oracle, search.slot),
        search.oracle,
        search.slot,
    )
    &&& search.live_ask() is Some ==> quotes_sortable(book, bids, search.oracle, search.slot)
        && nodes_meet_fallback(
        search.market_type,
        quotes(book, bids, search.oracle, search.slot),
        search.oracle,
        search.slot,
    )
}

/// The resting asks that the fallback bid can fill, at less than its price less
/// the rebate.
pub open spec fn resting_asks_filled(
    search: FillSearch,
    rebate: (u64, u64),
    book: BookView,
) -> Seq<Fill> {
    match search.live_bid() {
        Some(price) => search.fallback_fills(
            quotes(book, search.asks(), search.oracle, search.slot),
            PriceTest::Below(less_rebate(price, rebate) as u64),
        ),
        None => Seq::empty(),
    }
}

/// The resting bids that the fallback ask can fill, at more than its price less
/// the rebate.
pub open spec fn resting_bids_filled(
    search: FillSearch,
    rebate: (u64, u64),
    book: BookView,
) -> Seq<Fill> {
    match search.live_ask() {
        Some(price) => search.fallback_fills(
            quotes(book, search.bids(), search.oracle, search.slot),
            PriceTest::Above(less_rebate(price, rebate) as u64),
        ),
        None => Seq::empty(),
    }
}

/// Whether the search of the resting orders makes `before` into `after` and
/// yields `out`: the orders that cross, and then those that liquidity from
/// outside the book can fill.
pub open spec fn resting_found(
    search: FillSearch,
    rebate: (u64, u64),
    before: BookView,
    after: BookView,
    out: Seq<Fill>,
) -> bool {
    exists|crossing: Seq<Fill>| #[trigger]
        crossing_found(
            search.market_type,
            search.market_index,
            search.oracle,
            search.slot,
            before,
            after,
            crossing,
        ) && out == crossing + resting_asks_filled(search, rebate, after) + resting_bids_filled(
            search,
            rebate,
            after,
        )
}

/// Whether the orders of a market that take can be searched for ones to fill, once
/// the book is brought to the slot: the asks, with what these leave the bids, and
/// with what both leave those that liquidity from outside the book can fill.
pub open spec fn taking_ready(search: FillSearch, book: BookView) -> bool {
    &&& book.has_market(search.market_type, search.market_index)
    &&& forall|brought: BookView| #[trigger]
        brought_to(book, search.slot, brought) ==> asks_can_take(search, brought)
}

/// Whether the asks that take can be matched, and then the bids that take.
pub open spec fn asks_can_take(search: FillSearch, book: BookView) -> bool {
    &&& nodes_can_match(
        search.ask_rule(),
        book,
        search.bids(),
        takers(book, search.asks()),
        search.oracle,
        search.slot,
    )
    &&& forall|after: BookView, out: Seq<Fill>| #[trigger]
        all_matched(
            search.ask_rule(),
            book,
            search.bids(),
            takers(book, search.asks()),
            search.oracle,
            search.slot,
            after,
            out,
        ) ==> bids_can_take(search, after)
}

/// Whether the bids that take can be matched, and the takers of both sides then be
/// held against liquidity from outside the book.
pub open spec fn bids_can_take(search: FillSearch, book: BookView) -> bool {
    &&& nodes_can_match(
        search.bid_rule(),
        book,
        search.asks(),
        takers(book, search.bids()),
        search.oracle,
        search.slot,
    )
    &&& forall|after: BookView, out: Seq<Fill>| #[trigger]
        all_matched(
            search.bid_rule(),
            book,
            search.asks(),
            takers(book, search.bids()),
            search.oracle,
            search.slot,
            after,
            out,
        ) ==> takers_meet_fallback(search, after)
}

/// Whether the takers of a market can be held against the liquidity from outside
/// the book that there is.
pub open spec fn takers_meet_fallback(search: FillSearch, book: BookView) -> bool {
    &&& search.live_bid() is Some ==> nodes_meet_fallback(
        search.market_type,
        takers(book, search.asks()),
        search.oracle,
        search.slot,
    )
    &&& search.live_ask() is Some ==> nodes_meet_fallback(
        search.market_type,
        takers(book, search.bids()),
        search.oracle,
        search.slot,
    )
}

/// The asks that take and that the fallback bid can fill, at its price or less.
pub open spec fn taking_asks_filled(search: FillSearch, book: BookView) -> Seq<Fill> {
    match search.live_bid() {
        Some(price) => search.fallback_fills(
            takers(book, search.asks()),
            PriceTest::AtMost(price),
        ),
        None => Seq::empty(),
    }
}

/// The bids that take and that the fallback ask can fill, at more than its price.
pub open spec fn taking_bids_filled(search: FillSearch, book: BookView) -> Seq<Fill> {
    match search.live_ask() {
        Some(price) => search.fallback_fills(takers(book, search.bids()), PriceTest::Above(price)),
        None => Seq::empty(),
    }
}

/// Whether matching the asks that take makes `before` into `between` and yields
/// `asks_out`, and matching the bids that take makes that into `after` and yields
/// `bids_out`.
pub open spec fn sides_matched(
    search: FillSearch,
    before: BookView,
    between: BookView,
    asks_out: Seq<Fill>,
    after: BookView,
    bids_out: Seq<Fill>,
) -> bool {
    &&& all_matched(
        search.ask_rule(),
        before,
        search.bids(),
        takers(before, search.asks()),
        search.oracle,
        search.slot,
        between,
        asks_out,
    )
    &&& all_matched(
        search.bid_rule(),
        between,
        search.asks(),
        takers(between, search.bids()),
        search.oracle,
        search.slot,
        after,
        bids_out,
    )
}

/// Whether the search of the orders that take makes `before` into `after` and
/// yields `out`: what their matches come to, and then the ones that liquidity
/// from outside the book can fill. The book is brought to the slot first.
pub open spec fn taking_found(
    search: FillSearch,
    before: BookView,
    after: BookView,
    out: Seq<Fill>,
) -> bool {
    exists|book: BookView, between: BookView, asks_out: Seq<Fill>, bids_out: Seq<Fill>|
        brought_to(before, search.slot, book) && #[trigger] sides_matched(
            search,
            book,
            between,
            asks_out,
            after,
            bids_out,
        ) && out == asks_out + bids_out + taking_asks_filled(search, after) + taking_bids_filled(
            search,
            after,
        )
}

/// Whether the time at which an order expires can be computed, for every order of
/// a market that waits for no trigger.
pub open spec fn expiries_in_range(market: MarketView) -> bool {
    forall|node_type: NodeType, sub_type: SubType, n: Node|
        node_type != NodeType::Trigger && #[trigger] market.queue(node_type, sub_type).contains(n)
            ==> expiry_in_range(n.order, true)
}

/// For how many slots an order must have been up for auction before liquidity
/// from outside the book may fill it.
pub open spec fn min_auction_duration(market_type: MarketType, state: State) -> u8 {
    match market_type {
        MarketType::Perp => state.min_perp_auction_duration,
        MarketType::Spot => 0,
    }
}

/// The search of a market under the settings of the exchange.
pub open spec fn search_under<M: MarketOperations>(
    market: &M,
    state: State,
    slot: u64,
    oracle: OraclePriceData,
    fallback_bid: Option<u64>,
    fallback_ask: Option<u64>,
) -> FillSearch {
    search_of(
        market,
        slot,
        oracle,
        market.amm_is_paused(state),
        min_auction_duration(market.kind(), state),
        fallback_bid,
        fallback_ask,
    )
}

/// Whether a market can be searched for orders to fill: for expired ones, for
/// resting ones and, with what these leave, for those that take.
pub open spec fn fill_ready(search: FillSearch, rebate: (u64, u64), book: BookView) -> bool {
    &&& expiries_in_range(book.market(search.market_type, search.market_index))
    &&& live_ready(search, rebate, book)
}

/// Whether a market can be searched for resting orders to fill and, with what these
/// leave, for those that take.
pub open spec fn live_ready(search: FillSearch, rebate: (u64, u64), book: BookView) -> bool {
    &&& resting_ready(search, rebate, book)
    &&& forall|after: BookView, out: Seq<Fill>| #[trigger]
        resting_found(search, rebate, book, after, out) ==> taking_ready(search, after)
}

/// Whether the search of a market makes `before` into `after` and yields `out`:
/// the resting orders and those that take, each named once, and then the orders
/// that were expired at `ts`.
pub open spec fn fills_found(
    search: FillSearch,
    rebate: (u64, u64),
    ts: i64,
    before: BookView,
    after: BookView,
    out: Seq<Fill>,
) -> bool {
    searched_with(
        search,
        rebate,
        expired_fills(before.market(search.market_type, search.market_index), ts),
        before,
        after,
        out,
    )
}

/// Whether the search of a market makes `before` into `after` and yields `out`:
/// the resting orders and those that take, each named once, and then `more`.
pub open spec fn searched_with(
    search: FillSearch,
    rebate: (u64, u64),
    more: Seq<Fill>,
    before: BookView,
    after: BookView,
    out: Seq<Fill>,
) -> bool {
    exists|between: BookView, resting_out: Seq<Fill>, taking_out: Seq<Fill>| #[trigger]
        resting_found(search, rebate, before, between, resting_out) && #[trigger] taking_found(
            search,
            between,
            after,
            taking_out,
        ) && out == merged(resting_out + taking_out) + more
}

/// The first of the nodes, as far as `keep` holds of each.
pub open spec fn leading(nodes: Seq<Node>, keep: spec_fn(Node) -> bool) -> Seq<Node>
    decreases nodes.len(),
{
    if nodes.len() == 0 || !keep(nodes[0]) {
        Seq::empty()
    } else {
        seq![nodes[0]] + leading(nodes.skip(1), keep)
    }
}

/// The orders that the price has risen past.
pub open spec fn fires_below(oracle_price: u64) -> spec_fn(Node) -> bool {
    |n: Node| n.order.trigger_price < oracle_price
}

/// The orders that the price has fallen past.
pub open spec fn fires_above(oracle_price: u64) -> spec_fn(Node) -> bool {
    |n: Node| n.order.trigger_price > oracle_price
}

/// The orders of a market that the price triggers: those that wait for it to
/// rise and then those that wait for it to fall.
pub open spec fn nodes_triggered(market: MarketView, oracle_price: u64) -> Seq<Node> {
    leading(
        market.queue(NodeType::Trigger, SubType::Bid),
        fires_below(oracle_price),
    ) + leading(market.queue(NodeType::Trigger, SubType::Ask), fires_above(oracle_price))
}

/// The orders of a market that the price triggers under a status of the exchange: none
/// where that is not active.
pub open spec fn nodes_triggered_under(
    market: MarketView,
    oracle_price: u64,
    exchange_status: u8,
) -> Seq<Node> {
    if exchange_status == EXCHANGE_ACTIVE {
        nodes_triggered(market, oracle_price)
    } else {
        Seq::<Node>::empty()
    }
}

/// The nodes of a list of nodes to trigger.
pub open spec fn triggers(nodes: Seq<NodeToTrigger>) -> Seq<Node> {
    nodes.map_values(|n: NodeToTrigger| n.node)
}

/// Appends the nodes of `more`.
fn extend(nodes: &mut Vec<NodeToFill>, more: Vec<NodeToFill>)
    ensures
        fills(final(nodes)@) == fills(old(nodes)@) + fills(more@),
{
    let mut more = more;
    let ghost added = more@;
    nodes.append(&mut more);
    assert(fills(nodes@) =~= fills(old(nodes)@) + fills(added));
}

impl DLOB {
    /// Matches the resting asks of a market with its bids, fills the book by
    /// every match and gives what the matches come to.
    pub fn find_crossing_resting_limit_orders<M: MarketOperations>(
        &mut self,
        market: &M,
        slot: u64,
        oracle_price_data: OraclePriceData,
    ) -> (nodes_to_fill: Vec<NodeToFill>)
        requires
            old(self).wf(),
            forall|book: BookView| #[trigger]
                old(self).reads(book) ==> crossing_ready(
                    book,
                    asks_of(market.kind(), market.index()),
                    bids_of(market.kind(), market.index()),
                    oracle_price_data,
                    slot,
                ),
        ensures
            final(self).wf(),
            final(self).cell() == old(self).cell(),
            exists|book: BookView| #[trigger]
                old(self).reads(book) && brought_and_refilled(
                    MatchRule::Crossing,
                    oracle_price_data,
                    slot,
                    book,
                    final(self)@,
                ) && crossing_found(
                    market.kind(),
                    market.index(),
                    oracle_price_data,
                    slot,
                    book,
                    final(self)@,
                    fills(nodes_to_fill@),
                ),
    {
        self.look();
        self.match_crossing(market, slot, oracle_price_data)
    }

    /// Matches the resting asks of a market with its bids, going by the watermark as
    /// it was last looked at.
    fn match_crossing<M: MarketOperations>(
        &mut self,
        market: &M,
        slot: u64,
        oracle_price_data: OraclePriceData,
    ) -> (nodes_to_fill: Vec<NodeToFill>)
        requires
            old(self).wf(),
            crossing_ready(
                old(self)@,
                asks_of(market.kind(), market.index()),
                bids_of(market.kind(), market.index()),
                oracle_price_data,
                slot,
            ),
        ensures
            final(self).wf(),
            final(self).cell() == old(self).cell(),
            brought_and_refilled(
                MatchRule::Crossing,
                oracle_price_data,
                slot,
                old(self)@,
                final(self)@,
            ),
            crossing_found(
                market.kind(),
                market.index(),
                oracle_price_data,
                slot,
                old(self)@,
                final(self)@,
                fills(nodes_to_fill@),
            ),
    {
        let market_type = market.market_type();
        let market_index: u16 = market.market_index();
        let ghost asks = asks_of(market_type, market_index);
        let ghost bids = bids_of(market_type, market_index);
        self.bring(slot);
        let ghost book = self@;
        proof {
            old(self).lemma_sound();
            self.lemma_sound();
            lemma_brought_to_is_sound(old(self)@, slot, book);
            assert(asks_can_cross(book, asks, bids, oracle_price_data, slot));
            lemma_priced_quotes_are_sortable(book, asks, oracle_price_data, slot);
        }
        let resting_limit_asks = self.get_resting_limit_orders(
            slot,
            market_type,
            market_index,
            SubType::Ask,
            oracle_price_data,
        );
        self.match_nodes(
            MatchRule::Crossing,
            market_type,
            market_index,
            SubType::Bid,
            &resting_limit_asks,
            oracle_price_data,
            slot,
        )
    }

    /// Matches the takers with the makers that the other side of a market has,
    /// fills the book by every match and gives what the matches come to. In a
    /// spot market makers with a price worse than the fallback are passed over.
    pub fn find_taking_nodes_crossing_maker_nodes<M: MarketOperations>(
        &mut self,
        market: &M,
        slot: u64,
        oracle_price_data: OraclePriceData,
        taker_nodes: Vec<Node>,
        taker_side: SubType,
        fallback: Option<u64>,
    ) -> (nodes_to_fill: Vec<NodeToFill>)
        requires
            old(self).wf(),
            taker_nodes@.len() > 0 ==> old(self)@.has_market(market.kind(), market.index()),
            forall|book: BookView, brought: BookView| #[trigger]
                old(self).reads(book) && #[trigger] brought_to(book, slot, brought)
                    ==> nodes_can_match(
                    taking_rule(market.kind(), taker_side, fallback),
                    brought,
                    makers_for(market.kind(), market.index(), taker_side),
                    taker_nodes@,
                    oracle_price_data,
                    slot,
                ),
        ensures
            final(self).wf(),
            final(self).cell() == old(self).cell(),
            taker_nodes@.len() == 0 ==> final(self)@ == old(self)@ && nodes_to_fill@.len() == 0,
            taker_nodes@.len() > 0 ==> exists|book: BookView| #[trigger]
                old(self).reads(book) && takers_matched(
                    taking_rule(market.kind(), taker_side, fallback),
                    makers_for(market.kind(), market.index(), taker_side),
                    taker_nodes@,
                    oracle_price_data,
                    slot,
                    book,
                    final(self)@,
                    fills(nodes_to_fill@),
                ),
    {
        if taker_nodes.len() == 0 {
            return Vec::new();
        }
        self.look();
        self.match_takers(
            market,
            slot,
            oracle_price_data,
            taker_nodes,
            taker_side,
            fallback,
        )
    }

    /// Matches the takers with the makers that the other side of a market has, going
    /// by the watermark as it was last looked at.
    fn match_takers<M: MarketOperations>(
        &mut self,
        market: &M,
        slot: u64,
        oracle_price_data: OraclePriceData,
        taker_nodes: Vec<Node>,
        taker_side: SubType,
        fallback: Option<u64>,
    ) -> (nodes_to_fill: Vec<NodeToFill>)
        requires
            old(self).wf(),
            taker_nodes@.len() > 0 ==> old(self)@.has_market(market.kind(), market.index()),
            forall|brought: BookView| #[trigger]
                brought_to(old(self)@, slot, brought) ==> nodes_can_match(
                    taking_rule(market.kind(), taker_side, fallback),
                    brought,
                    makers_for(market.kind(), market.index(), taker_side),
                    taker_nodes@,
                    oracle_price_data,
                    slot,
                ),
        ensures
            final(self).wf(),
            final(self).cell() == old(self).cell(),
            takers_matched(
                taking_rule(market.kind(), taker_side, fallback),
                makers_for(market.kind(), market.index(), taker_side),
                taker_nodes@,
                oracle_price_data,
                slot,
                old(self)@,
                final(self)@,
                fills(nodes_to_fill@),
            ),
            slot <= old(self)@.max_slot ==> refilled(
                taking_rule(market.kind(), taker_side, fallback),
                old(self)@,
                final(self)@,
                oracle_price_data,
                slot,
            ),
    {
        if taker_nodes.len() == 0 {
            let nodes_to_fill: Vec<NodeToFill> = Vec::new();
            assert(fills(nodes_to_fill@) =~= Seq::<Fill>::empty());
            return nodes_to_fill;
        }
        let market_type = market.market_type();
        let market_index: u16 = market.market_index();
        let maker_side = match taker_side {
            SubType::Bid => SubType::Ask,
            SubType::Ask => SubType::Bid,
        };
        self.bring(slot);
        proof {
            old(self).lemma_sound();
            lemma_brought_to_is_sound(old(self)@, slot, self@);
        }
        self.match_nodes(
            MatchRule::Taking { market_type, taker_side, fallback },
            market_type,
            market_index,
            maker_side,
            &taker_nodes,
            oracle_price_data,
            slot,
        )
    }

    /// Gives the nodes that liquidity from outside the book can fill.
    pub fn find_nodes_crossing_fallback_liquidity(
        &self,
        market_type: MarketType,
        slot: u64,
        oracle_price_data: OraclePriceData,
        nodes: Vec<Node>,
        test: PriceTest,
        min_auction_duration: u8,
    ) -> (nodes_to_fill: Vec<NodeToFill>)
        requires
            nodes_meet_fallback(market_type, nodes@, oracle_price_data, slot),
        ensures
            fills(nodes_to_fill@) == fallback_fills(
                market_type,
                slot,
                oracle_price_data,
                nodes@,
                test,
                min_auction_duration,
            ),
    {
        let ghost crosses = |n: Node|
            crosses_fallback(
                market_type,
                slot,
                oracle_price_data,
                test,
                min_auction_duration,
                n,
            );
        let ghost alone = |n: Node| fill_alone(n);
        let mut nodes_to_fill: Vec<NodeToFill> = Vec::new();
        let mut i: usize = 0;
        proof {
            reveal(Seq::filter);
            assert(fills(nodes_to_fill@) =~= nodes@.take(0).filter(crosses).map_values(alone));
        }
        while i < nodes.len()
            invariant
                i <= nodes@.len(),
                nodes_meet_fallback(market_type, nodes@, oracle_price_data, slot),
                crosses == (|n: Node|
                    crosses_fallback(
                        market_type,
                        slot,
                        oracle_price_data,
                        test,
                        min_auction_duration,
                        n,
                    )),
                alone == (|n: Node| fill_alone(n)),
                fills(nodes_to_fill@) == nodes@.take(i as int).filter(crosses).map_values(alone),
            decreases nodes@.len() - i,
        {
            let node: Node = nodes[i];
            let ghost before = nodes_to_fill@;
            let ghost so_far = nodes@.take(i as int).filter(crosses);
            proof {
                assert(nodes@.contains(node));
                assert(nodes@.take(i + 1) =~= nodes@.take(i as int).push(node));
                lemma_filter_push(nodes@.take(i as int), node, crosses);
            }
            i += 1;
            if market_type == MarketType::Spot && node.get_order().post_only {
                continue;
            }
            let node_price: u64 = get_limit_price(node.get_order(), &oracle_price_data, slot, None);
            let fallback_available = market_type == MarketType::Spot || is_fallback_available(
                node.get_order(),
                min_auction_duration,
                slot,
            );
            if test.passes(node_price) && fallback_available {
                nodes_to_fill.push(NodeToFill { node, maker_nodes: Vec::new() });
                assert(fills(nodes_to_fill@) =~= fills(before).push(fill_alone(node)));
                assert(so_far.push(node).map_values(alone) =~= so_far.map_values(alone).push(
                    fill_alone(node),
                ));
            }
        }
        assert(nodes@.take(i as int) =~= nodes@);
        nodes_to_fill
    }
}

/// Adds the nodes whose orders are expired at `ts`.
fn push_expired(nodes: &Vec<Node>, ts: i64, nodes_to_fill: &mut Vec<NodeToFill>)
    requires
        forall|n: Node| #[trigger] nodes@.contains(n) ==> expiry_in_range(n.order, true),
    ensures
        fills(final(nodes_to_fill)@) == fills(old(nodes_to_fill)@) + expired_nodes(nodes@, ts),
{
    let ghost is_expired = |n: Node| expired(n.order, ts, true);
    let ghost alone = |n: Node| fill_alone(n);
    let mut i: usize = 0;
    proof {
        reveal(Seq::filter);
        assert(fills(nodes_to_fill@) =~= fills(nodes_to_fill@) + nodes@.take(0).filter(
            is_expired,
        ).map_values(alone));
    }
    while i < nodes.len()
        invariant
            i <= nodes@.len(),
            forall|n: Node| #[trigger] nodes@.contains(n) ==> expiry_in_range(n.order, true),
            is_expired == (|n: Node| expired(n.order, ts, true)),
            alone == (|n: Node| fill_alone(n)),
            fills(nodes_to_fill@) == fills(old(nodes_to_fill)@) + nodes@.take(i as int).filter(
                is_expired,
            ).map_values(alone),
        decreases nodes@.len() - i,
    {
        let node: Node = nodes[i];
        let ghost before = nodes_to_fill@;
        let ghost so_far = nodes@.take(i as int).filter(is_expired);
        proof {
            assert(nodes@.contains(node));
            assert(nodes@.take(i + 1) =~= nodes@.take(i as int).push(node));
            lemma_filter_push(nodes@.take(i as int), node, is_expired);
        }
        if is_order_expired(node.get_order(), ts, true) {
            nodes_to_fill.push(NodeToFill { node, maker_nodes: Vec::new() });
            assert(fills(nodes_to_fill@) =~= fills(before).push(fill_alone(node)));
            assert(so_far.push(node).map_values(alone) =~= so_far.map_values(alone).push(
                fill_alone(node),
            ));
        }
        i += 1;
    }
    assert(nodes@.take(i as int) =~= nodes@);
}

impl DLOB {
    /// Adds the expired nodes of a side of a market.
    fn push_expired_on_side(
        &self,
        market_index: u16,
        market_type: MarketType,
        sub_type: SubType,
        ts: i64,
        nodes_to_fill: &mut Vec<NodeToFill>,
    )
        requires
            self.wf(),
            self@.has_market(market_type, market_index),
            expiries_in_range(self@.market(market_type, market_index)),
        ensures
            fills(final(nodes_to_fill)@) == fills(old(nodes_to_fill)@) + expired_on_side(
                self@.market(market_type, market_index),
                sub_type,
                ts,
            ),
    {
        let ghost market = self@.market(market_type, market_index);
        let taking = self.get_best_orders(
            market_type,
            sub_type,
            NodeType::TakingLimit,
            market_index,
        );
        let resting = self.get_best_orders(
            market_type,
            sub_type,
            NodeType::RestingLimit,
            market_index,
        );
        let floating = self.get_best_orders(
            market_type,
            sub_type,
            NodeType::FloatingLimit,
            market_index,
        );
        let market_orders = self.get_best_orders(
            market_type,
            sub_type,
            NodeType::Market,
            market_index,
        );
        assert(taking@ == market.queue(NodeType::TakingLimit, sub_type));
        assert(resting@ == market.queue(NodeType::RestingLimit, sub_type));
        assert(floating@ == market.queue(NodeType::FloatingLimit, sub_type));
        assert(market_orders@ == market.queue(NodeType::Market, sub_type));
        push_expired(&taking, ts, nodes_to_fill);
        push_expired(&resting, ts, nodes_to_fill);
        push_expired(&floating, ts, nodes_to_fill);
        push_expired(&market_orders, ts, nodes_to_fill);
        assert(fills(nodes_to_fill@) =~= fills(old(nodes_to_fill)@) + expired_on_side(
            market,
            sub_type,
            ts,
        ));
    }

    /// Gives the orders of a market that are expired at `ts`, the bids first. The
    /// market must be there.
    pub fn find_expired_orders_to_fill(
        &self,
        market_index: u16,
        market_type: MarketType,
        ts: i64,
    ) -> (nodes_to_fill: Vec<NodeToFill>)
        requires
            self.wf(),
            self@.has_market(market_type, market_index),
            expiries_in_range(self@.market(market_type, market_index)),
        ensures
            fills(nodes_to_fill@) == expired_fills(self@.market(market_type, market_index), ts),
    {
        let mut nodes_to_fill: Vec<NodeToFill> = Vec::new();
        self.push_expired_on_side(
            market_index,
            market_type,
            SubType::Bid,
            ts,
            &mut nodes_to_fill,
        );
        self.push_expired_on_side(
            market_index,
            market_type,
            SubType::Ask,
            ts,
            &mut nodes_to_fill,
        );
        assert(fills(nodes_to_fill@) =~= expired_fills(
            self@.market(market_type, market_index),
            ts,
        ));
        nodes_to_fill
    }
}

impl DLOB {
    /// Gives the resting orders of a market that can be filled: those that cross
    /// and those that liquidity from outside the book can fill. The book is filled
    /// by every match.
    pub fn find_resting_orders_to_fill<M: MarketOperations>(
        &mut self,
        market: &M,
        slot: u64,
        oracle_price_data: OraclePriceData,
        is_amm_paused: bool,
        min_auction_duration: u8,
        maker_rebate_numerator: u64,
        maker_rebate_denominator: u64,
        fallback_bid: Option<u64>,
        fallback_ask: Option<u64>,
    ) -> (nodes_to_fill: Vec<NodeToFill>)
        requires
            old(self).wf(),
            forall|book: BookView| #[trigger]
                old(self).reads(book) ==> resting_ready(
                    search_of(
                        market,
                        slot,
                        oracle_price_data,
                        is_amm_paused,
                        min_auction_duration,
                        fallback_bid,
                        fallback_ask,
                    ),
                    (maker_rebate_numerator, maker_rebate_denominator),
                    book,
                ),
        ensures
            final(self).wf(),
            final(self).cell() == old(self).cell(),
            exists|book: BookView| #[trigger]
                old(self).reads(book) && brought_and_refilled(
                    MatchRule::Crossing,
                    oracle_price_data,
                    slot,
                    book,
                    final(self)@,
                ) && resting_found(
                    search_of(
                        market,
                        slot,
                        oracle_price_data,
                        is_amm_paused,
                        min_auction_duration,
                        fallback_bid,
                        fallback_ask,
                    ),
                    (maker_rebate_numerator, maker_rebate_denominator),
                    book,
                    final(self)@,
                    fills(nodes_to_fill@),
                ),
    {
        self.look();
        self.search_resting(
            market,
            slot,
            oracle_price_data,
            is_amm_paused,
            min_auction_duration,
            maker_rebate_numerator,
            maker_rebate_denominator,
            fallback_bid,
            fallback_ask,
        )
    }

    /// Gives the resting orders of a market that can be filled, going by the watermark
    /// as it was last looked at.
    fn search_resting<M: MarketOperations>(
        &mut self,
        market: &M,
        slot: u64,
        oracle_price_data: OraclePriceData,
        is_amm_paused: bool,
        min_auction_duration: u8,
        maker_rebate_numerator: u64,
        maker_rebate_denominator: u64,
        fallback_bid: Option<u64>,
        fallback_ask: Option<u64>,
    ) -> (nodes_to_fill: Vec<NodeToFill>)
        requires
            old(self).wf(),
            resting_ready(
                search_of(
                    market,
                    slot,
                    oracle_price_data,
                    is_amm_paused,
                    min_auction_duration,
                    fallback_bid,
                    fallback_ask,
                ),
                (maker_rebate_numerator, maker_rebate_denominator),
                old(self)@,
            ),
        ensures
            final(self).wf(),
            final(self).cell() == old(self).cell(),
            brought_and_refilled(
                MatchRule::Crossing,
                oracle_price_data,
                slot,
                old(self)@,
                final(self)@,
            ),
            resting_found(
                search_of(
                    market,
                    slot,
                    oracle_price_data,
                    is_amm_paused,
                    min_auction_duration,
                    fallback_bid,
                    fallback_ask,
                ),
                (maker_rebate_numerator, maker_rebate_denominator),
                old(self)@,
                final(self)@,
                fills(nodes_to_fill@),
            ),
    {
        let ghost search = search_of(
            market,
            slot,
            oracle_price_data,
            is_amm_paused,
            min_auction_duration,
            fallback_bid,
            fallback_ask,
        );
        let ghost rebate = (maker_rebate_numerator, maker_rebate_denominator);
        let market_type = market.market_type();
        let market_index: u16 = market.market_index();
        let mut nodes_to_fill = self.match_crossing(
            market,
            slot,
            oracle_price_data,
        );
        let ghost book = self@;
        let ghost crossing = fills(nodes_to_fill@);
        proof {
            old(self).lemma_sound();
            self.lemma_sound();
            let brought = choose|brought: BookView| #[trigger]
                brought_to(old(self)@, slot, brought) && refilled(
                    MatchRule::Crossing,
                    brought,
                    book,
                    oracle_price_data,
                    slot,
                );
            lemma_brought_to_is_sound(old(self)@, slot, brought);
            assert(book.has_market(market_type, market_index));
            assert(quotes_meet_fallback(search, book));
        }

        if let Some(bid) = fallback_bid {
            if !is_amm_paused {
                let resting_limit_asks = self.get_resting_limit_orders(
                    slot,
                    market_type,
                    market_index,
                    SubType::Ask,
                    oracle_price_data,
                );
                let bid_with_buffer: u64 = bid - (bid * maker_rebate_numerator
                    / maker_rebate_denominator);
                let asks_crossing = self.find_nodes_crossing_fallback_liquidity(
                    market_type,
                    slot,
                    oracle_price_data,
                    resting_limit_asks,
                    PriceTest::Below(bid_with_buffer),
                    min_auction_duration,
                );
                extend(&mut nodes_to_fill, asks_crossing);
            }
        }
        assert(self@ == book);
        assert(fills(nodes_to_fill@) =~= crossing + resting_asks_filled(search, rebate, book));

        if let Some(ask) = fallback_ask {
            if !is_amm_paused {
                let resting_limit_bids = self.get_resting_limit_orders(
                    slot,
                    market_type,
                    market_index,
                    SubType::Bid,
                    oracle_price_data,
                );
                let ask_with_buffer: u64 = ask - (ask * maker_rebate_numerator
                    / maker_rebate_denominator);
                let bids_crossing = self.find_nodes_crossing_fallback_liquidity(
                    market_type,
                    slot,
                    oracle_price_data,
                    resting_limit_bids,
                    PriceTest::Above(ask_with_buffer),
                    min_auction_duration,
                );
                extend(&mut nodes_to_fill, bids_crossing);
            }
        }
        assert(self@ == book);
        assert(fills(nodes_to_fill@) =~= crossing + resting_asks_filled(search, rebate, book)
            + resting_bids_filled(search, rebate, book));
        nodes_to_fill
    }
}

/// In a book that was brought to the slot, takers are matched as it stands.
proof fn lemma_matched_at_once(
    rule: MatchRule,
    makers: Side,
    nodes: Seq<Node>,
    oracle: OraclePriceData,
    slot: u64,
    before: BookView,
    after: BookView,
    out: Seq<Fill>,
)
    requires
        slot <= before.max_slot,
        takers_matched(rule, makers, nodes, oracle, slot, before, after, out),
    ensures
        all_matched(rule, before, makers, nodes, oracle, slot, after, out),
{
}

/// Makers that all have prices can be sorted.
proof fn lemma_priced_quotes_are_sortable(
    book: BookView,
    side: Side,
    oracle: OraclePriceData,
    slot: u64,
)
    requires
        book.sound(),
        slot <= book.max_slot,
        book.has_market(side.market_type, side.market_index),
        forall|n: Node| #[trigger]
            quotes(book, side, oracle, slot).contains(n) ==> n.priced(oracle, slot),
    ensures
        quotes_sortable(book, side, oracle, slot),
{
    assert(brought_to(book, slot, book));
    lemma_quotes_are_quoted(book, slot, book, side, oracle);
    assert forall|n: Node| #[trigger] will_quote(book, side, slot, n) implies n.priced(
        oracle,
        slot,
    ) by {
        assert(quotes(book, side, oracle, slot).contains(n));
    }
}

impl DLOB {
    /// Gives the orders of a market that take and can be filled: those that cross
    /// the makers of the other side and those that liquidity from outside the
    /// book can fill. The book is filled by every match.
    pub fn find_taking_orders_to_fill<M: MarketOperations>(
        &mut self,
        market: &M,
        slot: u64,
        oracle_price_data: OraclePriceData,
        is_amm_paused: bool,
        min_auction_duration: u8,
        fallback_bid: Option<u64>,
        fallback_ask: Option<u64>,
    ) -> (nodes_to_fill: Vec<NodeToFill>)
        requires
            old(self).wf(),
            forall|book: BookView| #[trigger]
                old(self).reads(book) ==> taking_ready(
                    search_of(
                        market,
                        slot,
                        oracle_price_data,
                        is_amm_paused,
                        min_auction_duration,
                        fallback_bid,
                        fallback_ask,
                    ),
                    book,
                ),
        ensures
            final(self).wf(),
            final(self).cell() == old(self).cell(),
            exists|book: BookView| #[trigger]
                old(self).reads(book) && brought_and_refilled(
                    taking_rule(market.kind(), SubType::Bid, fallback_ask),
                    oracle_price_data,
                    slot,
                    book,
                    final(self)@,
                ) && taking_found(
                    search_of(
                        market,
                        slot,
                        oracle_price_data,
                        is_amm_paused,
                        min_auction_duration,
                        fallback_bid,
                        fallback_ask,
                    ),
                    book,
                    final(self)@,
                    fills(nodes_to_fill@),
                ),
    {
        self.look();
        self.search_taking(
            market,
            slot,
            oracle_price_data,
            is_amm_paused,
            min_auction_duration,
            fallback_bid,
            fallback_ask,
        )
    }

    /// Gives the orders of a market that take and can be filled, going by the
    /// watermark as it was last looked at.
    fn search_taking<M: MarketOperations>(
        &mut self,
        market: &M,
        slot: u64,
        oracle_price_data: OraclePriceData,
        is_amm_paused: bool,
        min_auction_duration: u8,
        fallback_bid: Option<u64>,
        fallback_ask: Option<u64>,
    ) -> (nodes_to_fill: Vec<NodeToFill>)
        requires
            old(self).wf(),
            taking_ready(
                search_of(
                    market,
                    slot,
                    oracle_price_data,
                    is_amm_paused,
                    min_auction_duration,
                    fallback_bid,
                    fallback_ask,
                ),
                old(self)@,
            ),
        ensures
            final(self).wf(),
            final(self).cell() == old(self).cell(),
            brought_and_refilled(
                taking_rule(market.kind(), SubType::Bid, fallback_ask),
                oracle_price_data,
                slot,
                old(self)@,
                final(self)@,
            ),
            taking_found(
                search_of(
                    market,
                    slot,
                    oracle_price_data,
                    is_amm_paused,
                    min_auction_duration,
                    fallback_bid,
                    fallback_ask,
                ),
                old(self)@,
                final(self)@,
                fills(nodes_to_fill@),
            ),
    {
        let ghost search = search_of(
            market,
            slot,
            oracle_price_data,
            is_amm_paused,
            min_auction_duration,
            fallback_bid,
            fallback_ask,
        );
        let ghost asks = search.asks();
        let ghost bids = search.bids();
        let market_type = market.market_type();
        let market_index: u16 = market.market_index();
        let ghost ask_rule = taking_rule(market_type, SubType::Ask, fallback_bid);
        let ghost bid_rule = taking_rule(market_type, SubType::Bid, fallback_ask);

        let taking_asks = self.list_taking_orders(slot, market_type, market_index, SubType::Ask);
        let ghost book = self@;
        proof {
            old(self).lemma_sound();
            lemma_brought_to_is_sound(old(self)@, slot, book);
            assert(asks_can_take(search, book));
        }
        let mut nodes_to_fill = self.match_takers(
            market,
            slot,
            oracle_price_data,
            taking_asks,
            SubType::Ask,
            fallback_bid,
        );
        let ghost between = self@;
        let ghost asks_out = fills(nodes_to_fill@);
        proof {
            lemma_matched_at_once(
                ask_rule,
                bids,
                takers(book, asks),
                oracle_price_data,
                slot,
                book,
                between,
                asks_out,
            );
            assert(bids_can_take(search, between));
        }

        let taking_bids = self.list_taking_orders(slot, market_type, market_index, SubType::Bid);
        let taking_bids_crossing_asks = self.match_takers(
            market,
            slot,
            oracle_price_data,
            taking_bids,
            SubType::Bid,
            fallback_ask,
        );
        let ghost after = self@;
        let ghost bids_out = fills(taking_bids_crossing_asks@);
        extend(&mut nodes_to_fill, taking_bids_crossing_asks);
        proof {
            lemma_matched_at_once(
                bid_rule,
                asks,
                takers(between, bids),
                oracle_price_data,
                slot,
                between,
                after,
                bids_out,
            );
            assert(takers_meet_fallback(search, after));
            assert(sides_matched(search, book, between, asks_out, after, bids_out));
            lemma_refilled_by_taking(ask_rule, bid_rule, book, between, oracle_price_data, slot);
            lemma_refilled_again(bid_rule, book, between, after, oracle_price_data, slot);
        }

        if let Some(bid) = fallback_bid {
            if !is_amm_paused {
                let taking_asks = self.list_taking_orders(
                    slot,
                    market_type,
                    market_index,
                    SubType::Ask,
                );
                let taking_asks_crossing_fallback = self.find_nodes_crossing_fallback_liquidity(
                    market_type,
                    slot,
                    oracle_price_data,
                    taking_asks,
                    PriceTest::AtMost(bid),
                    min_auction_duration,
                );
                extend(&mut nodes_to_fill, taking_asks_crossing_fallback);
            }
        }
        assert(self@ == after);
        assert(fills(nodes_to_fill@) =~= asks_out + bids_out + taking_asks_filled(search, after));

        if let Some(ask) = fallback_ask {
            if !is_amm_paused {
                let taking_bids = self.list_taking_orders(
                    slot,
                    market_type,
                    market_index,
                    SubType::Bid,
                );
                let taking_bids_crossing_fallback = self.find_nodes_crossing_fallback_liquidity(
                    market_type,
                    slot,
                    oracle_price_data,
                    taking_bids,
                    PriceTest::Above(ask),
                    min_auction_duration,
                );
                extend(&mut nodes_to_fill, taking_bids_crossing_fallback);
            }
        }
        assert(self@ == after);
        assert(fills(nodes_to_fill@) =~= asks_out + bids_out + taking_asks_filled(search, after)
            + taking_bids_filled(search, after));
        nodes_to_fill
    }
}

impl DLOB {
    /// Gives the orders of a market that can be filled, or nothing where fills are
    /// paused: the resting orders and those that take, each named once with all of
    /// its makers, and then the expired ones. The book is filled by every match.
    pub fn find_nodes_to_fill<M: MarketOperations>(
        &mut self,
        market: &M,
        fallback_bid: Option<u64>,
        fallback_ask: Option<u64>,
        slot: u64,
        ts: i64,
        oracle_price_data: OraclePriceData,
        state: State,
    ) -> (nodes_to_fill: Option<Vec<NodeToFill>>)
        requires
            old(self).wf(),
            !market.fill_is_paused(state) ==> market.amm_status_known(state),
            !market.fill_is_paused(state) ==> forall|book: BookView| #[trigger]
                old(self).reads(book) ==> fill_ready(
                    search_under(
                        market,
                        state,
                        slot,
                        oracle_price_data,
                        fallback_bid,
                        fallback_ask,
                    ),
                    market.maker_rebate(state),
                    book,
                ),
        ensures
            final(self).wf(),
            final(self).cell() == old(self).cell(),
            nodes_to_fill is None == market.fill_is_paused(state),
            nodes_to_fill is None ==> final(self)@ == old(self)@,
            nodes_to_fill matches Some(nodes) ==> exists|book: BookView| #[trigger]
                old(self).reads(book) && fills_found(
                    search_under(
                        market,
                        state,
                        slot,
                        oracle_price_data,
                        fallback_bid,
                        fallback_ask,
                    ),
                    market.maker_rebate(state),
                    ts,
                    book,
                    final(self)@,
                    fills(nodes@),
                ) && brought_and_refilled(
                    taking_rule(market.kind(), SubType::Bid, fallback_ask),
                    oracle_price_data,
                    slot,
                    book,
                    final(self)@,
                ),
    {
        if market.is_fill_paused(&state) {
            return None;
        }
        let is_amm_paused = market.is_amm_paused(&state);
        let min_auction_duration: u8 = match market.market_type() {
            MarketType::Perp => state.min_perp_auction_duration,
            MarketType::Spot => 0,
        };
        let (maker_rebate_numerator, maker_rebate_denominator) = market.calculate_maker_rebate(
            &state,
        );
        self.look();
        let expired_nodes_to_fill = self.find_expired_orders_to_fill(
            market.market_index(),
            market.market_type(),
            ts,
        );
        Some(
            self.search_orders(
                market,
                slot,
                oracle_price_data,
                is_amm_paused,
                min_auction_duration,
                maker_rebate_numerator,
                maker_rebate_denominator,
                fallback_bid,
                fallback_ask,
                expired_nodes_to_fill,
            ),
        )
    }

    /// Gives the resting orders of a market that can be filled and those that take,
    /// each named once with all of its makers, and then `more`, going by the
    /// watermark as it was last looked at.
    pub(crate) fn search_orders<M: MarketOperations>(
        &mut self,
        market: &M,
        slot: u64,
        oracle_price_data: OraclePriceData,
        is_amm_paused: bool,
        min_auction_duration: u8,
        maker_rebate_numerator: u64,
        maker_rebate_denominator: u64,
        fallback_bid: Option<u64>,
        fallback_ask: Option<u64>,
        more: Vec<NodeToFill>,
    ) -> (nodes_to_fill: Vec<NodeToFill>)
        requires
            old(self).wf(),
            live_ready(
                search_of(
                    market,
                    slot,
                    oracle_price_data,
                    is_amm_paused,
                    min_auction_duration,
                    fallback_bid,
                    fallback_ask,
                ),
                (maker_rebate_numerator, maker_rebate_denominator),
                old(self)@,
            ),
        ensures
            final(self).wf(),
            final(self).cell() == old(self).cell(),
            searched_with(
                search_of(
                    market,
                    slot,
                    oracle_price_data,
                    is_amm_paused,
                    min_auction_duration,
                    fallback_bid,
                    fallback_ask,
                ),
                (maker_rebate_numerator, maker_rebate_denominator),
                fills(more@),
                old(self)@,
                final(self)@,
                fills(nodes_to_fill@),
            ),
            brought_and_refilled(
                taking_rule(market.kind(), SubType::Bid, fallback_ask),
                oracle_price_data,
                slot,
                old(self)@,
                final(self)@,
            ),
    {
        let ghost rebate = (maker_rebate_numerator, maker_rebate_denominator);
        let ghost search = search_of(
            market,
            slot,
            oracle_price_data,
            is_amm_paused,
            min_auction_duration,
            fallback_bid,
            fallback_ask,
        );
        let resting_orders_to_fill = self.search_resting(
            market,
            slot,
            oracle_price_data,
            is_amm_paused,
            min_auction_duration,
            maker_rebate_numerator,
            maker_rebate_denominator,
            fallback_bid,
            fallback_ask,
        );
        let ghost between = self@;
        let ghost resting_out = fills(resting_orders_to_fill@);
        proof {
            assert(resting_found(search, rebate, old(self)@, between, resting_out));
            assert(taking_ready(search, between));
        }
        let taking_orders_to_fill = self.search_taking(
            market,
            slot,
            oracle_price_data,
            is_amm_paused,
            min_auction_duration,
            fallback_bid,
            fallback_ask,
        );
        let ghost taking_out = fills(taking_orders_to_fill@);

        let mut nodes_to_fill = merge_and_deduplicate_nodes(
            resting_orders_to_fill,
            taking_orders_to_fill,
        );
        extend(&mut nodes_to_fill, more);
        proof {
            assert(taking_found(search, between, self@, taking_out));
            let rule = taking_rule(market.kind(), SubType::Bid, fallback_ask);
            let brought = choose|brought: BookView| #[trigger]
                brought_to(old(self)@, slot, brought) && refilled(
                    MatchRule::Crossing,
                    brought,
                    between,
                    oracle_price_data,
                    slot,
                );
            old(self).lemma_sound();
            lemma_brought_to_is_sound(old(self)@, slot, brought);
            lemma_refilled_by_taking(
                MatchRule::Crossing,
                rule,
                brought,
                between,
                oracle_price_data,
                slot,
            );
            lemma_refilled_again(rule, brought, between, self@, oracle_price_data, slot);
        }
        nodes_to_fill
    }

    /// Gives the orders of a market that the oracle price triggers, or none where
    /// the exchange is not active. The market must be there.
    pub fn find_nodes_to_trigger(
        &self,
        market_index: u16,
        market_type: MarketType,
        oracle_price: u64,
        state: State,
    ) -> (nodes_to_trigger: Vec<NodeToTrigger>)
        requires
            self.wf(),
            state.exchange_status == EXCHANGE_ACTIVE ==> self@.has_market(
                market_type,
                market_index,
            ),
        ensures
            triggers(nodes_to_trigger@) == nodes_triggered_under(
                self@.market(market_type, market_index),
                oracle_price,
                state.exchange_status,
            ),
    {
        let mut nodes_to_trigger: Vec<NodeToTrigger> = Vec::new();
        assert(triggers(nodes_to_trigger@) =~= Seq::<Node>::empty());
        if state.exchange_status != EXCHANGE_ACTIVE {
            return nodes_to_trigger;
        }
        let trigger_above_list = self.get_best_orders(
            market_type,
            SubType::Bid,
            NodeType::Trigger,
            market_index,
        );
        let trigger_below_list = self.get_best_orders(
            market_type,
            SubType::Ask,
            NodeType::Trigger,
            market_index,
        );
        let ghost above = leading(trigger_above_list@, fires_below(oracle_price));
        let ghost below = leading(trigger_below_list@, fires_above(oracle_price));

        let mut i: usize = 0;
        assert(trigger_above_list@.skip(0) =~= trigger_above_list@);
        assert(above =~= triggers(nodes_to_trigger@) + above);
        while i < trigger_above_list.len() && trigger_above_list[i].get_order().trigger_price
            < oracle_price
            invariant
                i <= trigger_above_list@.len(),
                above == triggers(nodes_to_trigger@) + leading(
                    trigger_above_list@.skip(i as int),
                    fires_below(oracle_price),
                ),
            decreases trigger_above_list@.len() - i,
        {
            let node: Node = trigger_above_list[i];
            let ghost so_far = triggers(nodes_to_trigger@);
            nodes_to_trigger.push(NodeToTrigger { node });
            assert(triggers(nodes_to_trigger@) =~= so_far.push(node));
            assert(trigger_above_list@.skip(i as int).skip(1) =~= trigger_above_list@.skip(i + 1));
            assert(so_far + (seq![node] + leading(
                trigger_above_list@.skip(i + 1),
                fires_below(oracle_price),
            )) =~= so_far.push(node) + leading(
                trigger_above_list@.skip(i + 1),
                fires_below(oracle_price),
            ));
            i += 1;
        }
        assert(above =~= triggers(nodes_to_trigger@));

        let mut j: usize = 0;
        assert(trigger_below_list@.skip(0) =~= trigger_below_list@);
        while j < trigger_below_list.len() && trigger_below_list[j].get_order().trigger_price
            > oracle_price
            invariant
                j <= trigger_below_list@.len(),
                above + below == triggers(nodes_to_trigger@) + leading(
                    trigger_below_list@.skip(j as int),
                    fires_above(oracle_price),
                ),
            decreases trigger_below_list@.len() - j,
        {
            let node: Node = trigger_below_list[j];
            let ghost so_far = triggers(nodes_to_trigger@);
            nodes_to_trigger.push(NodeToTrigger { node });
            assert(triggers(nodes_to_trigger@) =~= so_far.push(node));
            assert(trigger_below_list@.skip(j as int).skip(1) =~= trigger_below_list@.skip(j + 1));
            assert(so_far + (seq![node] + leading(
                trigger_below_list@.skip(j + 1),
                fires_above(oracle_price),
            )) =~= so_far.push(node) + leading(
                trigger_below_list@.skip(j + 1),
                fires_above(oracle_price),
            ));
            j += 1;
        }
        assert(above + below =~= triggers(nodes_to_trigger@));
        nodes_to_trigger
    }
}

/// Filtering a longer sequence looks at its last element last.
proof fn lemma_filter_push(nodes: Seq<Node>, node: Node, keep: spec_fn(Node) -> bool)
    ensures
        nodes.push(node).filter(keep) == if keep(node) {
            nodes.filter(keep).push(node)
        } else {
            nodes.filter(keep)
        },
{
    reveal(Seq::filter);
    assert(nodes.push(node).drop_last() =~= nodes);
}

} // verus!
