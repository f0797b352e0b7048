//! The search for orders to fill, with a test of the orders before it.

use vstd::prelude::*;

use crate::dlob::book::{lemma_sound_by_markets, BookView, Place};
use crate::dlob::dlob::DLOB;
use crate::dlob::matching::{shuns_fallback, MatchRule};
use crate::dlob::node::{
    fills, lemma_signature_is_injective, Fill, Node, NodeToFill, NodeType, SubType,
};
use crate::dlob::quotes::{
    at_most_one_quote, lemma_at_most_one_quote, price_rank, quotes, quotes_sortable, slot_rank,
    takers, will_quote, Side,
};
use crate::dlob::readiness::{can_compare, lemma_few_quotes, nodes_meet_fallback};
use crate::dlob::resting::{brought_to, lemma_brought_to_is_sound};
use crate::dlob::search::{
    brought_and_refilled, crossing_found, expiries_in_range, fills_found, quotes_meet_fallback,
    rebate_in_range, resting_asks_filled, resting_bids_filled, resting_found, search_under,
    searched_with, takers_meet_fallback, taking_found, FillSearch,
};
use crate::dlob::sorting::lemma_rank_sorted;
use crate::dlob::steady::{
    lemma_ready_orders_can_be_searched, listed_once, orders_ready, pairs_ready,
};
use crate::dlob::utils::merged;
use crate::market_operations::MarketOperations;
use crate::math::order::{checked_limit_price, expiry_in_range, is_expiry_in_range};
use crate::pubkey::text_spells;
use crate::types::{MarketType, OraclePriceData, Order, State};

verus! {

/// Says that a market was not searched, as it has orders that cannot be.
#[derive(Clone, Copy, Debug, PartialEq, Eq, Structural)]
pub struct NotReady;

/// Whether every one of the nodes has a price.
pub open spec fn all_priced(nodes: Seq<Node>, oracle: OraclePriceData, slot: u64) -> bool {
    forall|n: Node| #[trigger] nodes.contains(n) ==> n.priced(oracle, slot)
}

/// Whether no order is among both of the nodes.
pub open spec fn apart(a: Seq<Node>, b: Seq<Node>) -> bool {
    forall|m: Node, n: Node| #[trigger]
        a.contains(m) && #[trigger] b.contains(n) ==> m.signature() != n.signature()
}

/// Whether the time at which an order expires can be computed, for every node.
pub open spec fn all_expire(nodes: Seq<Node>) -> bool {
    forall|n: Node| #[trigger] nodes.contains(n) ==> expiry_in_range(n.order, true)
}

/// Says whether a node has a price.
fn is_priced(node: &Node, oracle: OraclePriceData, slot: u64) -> (priced: bool)
    ensures
        priced == node.priced(oracle, slot),
{
    checked_limit_price(&node.order, &oracle, slot, None).is_some()
}

/// Says whether every one of the nodes has a price.
fn are_all_priced(nodes: &Vec<Node>, oracle: OraclePriceData, slot: u64) -> (priced: bool)
    ensures
        priced == all_priced(nodes@, oracle, slot),
{
    let mut i: usize = 0;
    while i < nodes.len()
        invariant
            i <= nodes@.len(),
            forall|k: int| 0 <= k < i ==> (#[trigger] nodes@[k]).priced(oracle, slot),
        decreases nodes@.len() - i,
    {
        if !is_priced(&nodes[i], oracle, slot) {
            assert(nodes@.contains(nodes@[i as int]));
            return false;
        }
        i += 1;
    }
    true
}

/// Says whether the nodes can be held against liquidity from outside the book.
fn can_meet_fallback(
    market_type: MarketType,
    nodes: &Vec<Node>,
    oracle: OraclePriceData,
    slot: u64,
) -> (meet: bool)
    ensures
        meet == nodes_meet_fallback(market_type, nodes@, oracle, slot),
{
    let mut i: usize = 0;
    while i < nodes.len()
        invariant
            i <= nodes@.len(),
            forall|k: int|
                0 <= k < i ==> shuns_fallback(market_type, #[trigger] nodes@[k])
                    || nodes@[k].priced(oracle, slot),
        decreases nodes@.len() - i,
    {
        let shuns = market_type == MarketType::Spot && nodes[i].order.post_only;
        if !shuns && !is_priced(&nodes[i], oracle, slot) {
            assert(nodes@.contains(nodes@[i as int]));
            return false;
        }
        i += 1;
    }
    true
}

/// Says whether the time at which an order expires can be computed, for every node.
fn can_all_expire(nodes: &Vec<Node>) -> (expire: bool)
    ensures
        expire == all_expire(nodes@),
{
    let mut i: usize = 0;
    while i < nodes.len()
        invariant
            i <= nodes@.len(),
            forall|k: int| 0 <= k < i ==> expiry_in_range((#[trigger] nodes@[k]).order, true),
        decreases nodes@.len() - i,
    {
        if !is_expiry_in_range(&nodes[i].order, true) {
            assert(nodes@.contains(nodes@[i as int]));
            return false;
        }
        i += 1;
    }
    true
}

/// Says whether no order is among both of the nodes.
fn are_apart(a: &Vec<Node>, b: &Vec<Node>) -> (are: bool)
    requires
        forall|n: Node| #[trigger] a@.contains(n) ==> text_spells(n.user_account),
        forall|n: Node| #[trigger] b@.contains(n) ==> text_spells(n.user_account),
    ensures
        are == apart(a@, b@),
{
    let mut i: usize = 0;
    while i < a.len()
        invariant
            i <= a@.len(),
            forall|n: Node| #[trigger] a@.contains(n) ==> text_spells(n.user_account),
            forall|n: Node| #[trigger] b@.contains(n) ==> text_spells(n.user_account),
            forall|k: int, l: int|
                0 <= k < i && 0 <= l < b@.len() ==> (#[trigger] a@[k]).signature() != (
                #[trigger] b@[l]).signature(),
        decreases a@.len() - i,
    {
        let mut j: usize = 0;
        assert(a@.contains(a@[i as int]));
        while j < b.len()
            invariant
                i < a@.len(),
                j <= b@.len(),
                a@.contains(a@[i as int]),
                forall|n: Node| #[trigger] a@.contains(n) ==> text_spells(n.user_account),
                forall|n: Node| #[trigger] b@.contains(n) ==> text_spells(n.user_account),
                forall|l: int|
                    0 <= l < j ==> a@[i as int].signature() != (#[trigger] b@[l]).signature(),
            decreases b@.len() - j,
        {
            assert(b@.contains(b@[j as int]));
            if a[i].order.order_id == b[j].order.order_id && a[i].user_account
                == b[j].user_account {
                return false;
            }
            proof {
                let m = a@[i as int];
                let n = b@[j as int];
                if m.signature() == n.signature() {
                    lemma_signature_is_injective(
                        m.order.order_id,
                        m.user_account,
                        n.order.order_id,
                        n.user_account,
                    );
                }
            }
            j += 1;
        }
        i += 1;
    }
    true
}

/// Says whether a slot that the rule compares can be computed.
fn is_in_range(rule: MatchRule, order: &Order) -> (in_range: bool)
    ensures
        in_range == rule.in_range(*order),
{
    match rule {
        MatchRule::Crossing => order.slot <= u64::MAX - order.auction_duration as u64,
        MatchRule::Taking { .. } => true,
    }
}

/// Says whether a node and a maker can be held against each other and, where they
/// match, filled.
fn is_pair_ready(
    rule: MatchRule,
    node: &Node,
    maker: &Node,
    oracle: OraclePriceData,
    slot: u64,
) -> (ready: bool)
    ensures
        ready == (can_compare(rule, *node, *maker, oracle, slot) && (rule.pairs(
            *node,
            *maker,
            oracle,
            slot,
        ) ==> node.order.within_size() && maker.order.within_size())),
{
    let is_crossing = match rule {
        MatchRule::Crossing => true,
        MatchRule::Taking { .. } => false,
    };
    let is_own = node.user_account == maker.user_account;
    if is_crossing || !is_own {
        if !is_priced(node, oracle, slot) || !is_priced(maker, oracle, slot) {
            return false;
        }
        if !is_own && maker.get_price(oracle, slot) >= node.get_price(oracle, slot) && !(
        is_in_range(rule, &node.order) && is_in_range(rule, &maker.order)) {
            return false;
        }
    }
    match rule.try_match(node, maker, oracle, slot) {
        Some(_) => node.order.base_asset_amount_filled <= node.order.base_asset_amount
            && maker.order.base_asset_amount_filled <= maker.order.base_asset_amount,
        None => true,
    }
}

/// Says whether each of the nodes can be held against each of the makers and, where
/// they match, filled.
fn are_pairs_ready(
    rule: MatchRule,
    nodes: &Vec<Node>,
    makers: &Vec<Node>,
    oracle: OraclePriceData,
    slot: u64,
) -> (ready: bool)
    ensures
        ready == pairs_ready(rule, nodes@, makers@, oracle, slot),
{
    let mut i: usize = 0;
    while i < nodes.len()
        invariant
            i <= nodes@.len(),
            pairs_ready(rule, nodes@.take(i as int), makers@, oracle, slot),
        decreases nodes@.len() - i,
    {
        let ghost node = nodes@[i as int];
        let mut j: usize = 0;
        while j < makers.len()
            invariant
                i < nodes@.len(),
                node == nodes@[i as int],
                j <= makers@.len(),
                pairs_ready(rule, seq![node], makers@.take(j as int), oracle, slot),
            decreases makers@.len() - j,
        {
            if !is_pair_ready(rule, &nodes[i], &makers[j], oracle, slot) {
                assert(nodes@.contains(node) && makers@.contains(makers@[j as int]));
                return false;
            }
            proof {
                lemma_pairs_ready_with(
                    rule,
                    node,
                    makers@.take(j as int),
                    makers@[j as int],
                    oracle,
                    slot,
                );
                assert(makers@.take(j + 1) =~= makers@.take(j as int).push(makers@[j as int]));
            }
            j += 1;
        }
        proof {
            assert(makers@.take(j as int) =~= makers@);
            lemma_pairs_ready_more(rule, nodes@.take(i as int), node, makers@, oracle, slot);
            assert(nodes@.take(i + 1) =~= nodes@.take(i as int).push(node));
        }
        i += 1;
    }
    assert(nodes@.take(i as int) =~= nodes@);
    true
}

proof fn lemma_pairs_ready_with(
    rule: MatchRule,
    node: Node,
    makers: Seq<Node>,
    maker: Node,
    oracle: OraclePriceData,
    slot: u64,
)
    requires
        pairs_ready(rule, seq![node], makers, oracle, slot),
        can_compare(rule, node, maker, oracle, slot),
        rule.pairs(node, maker, oracle, slot) ==> node.order.within_size()
            && maker.order.within_size(),
    ensures
        pairs_ready(rule, seq![node], makers.push(maker), oracle, slot),
{
    assert forall|n: Node, m: Node| #[trigger]
        seq![node].contains(n) && #[trigger] makers.push(maker).contains(m) implies can_compare(
        rule,
        n,
        m,
        oracle,
        slot,
    ) && (rule.pairs(n, m, oracle, slot) ==> n.order.within_size() && m.order.within_size()) by {
        assert(n == node);
        if m != maker {
            let k = choose|k: int| 0 <= k < makers.push(maker).len() && makers.push(maker)[k] == m;
            assert(makers[k] == m);
            assert(makers.contains(m));
        }
    }
}

proof fn lemma_pairs_ready_more(
    rule: MatchRule,
    nodes: Seq<Node>,
    node: Node,
    makers: Seq<Node>,
    oracle: OraclePriceData,
    slot: u64,
)
    requires
        pairs_ready(rule, nodes, makers, oracle, slot),
        pairs_ready(rule, seq![node], makers, oracle, slot),
    ensures
        pairs_ready(rule, nodes.push(node), makers, oracle, slot),
{
    assert forall|n: Node, m: Node| #[trigger]
        nodes.push(node).contains(n) && #[trigger] makers.contains(m) implies can_compare(
        rule,
        n,
        m,
        oracle,
        slot,
    ) && (rule.pairs(n, m, oracle, slot) ==> n.order.within_size() && m.order.within_size()) by {
        if n != node {
            let k = choose|k: int| 0 <= k < nodes.push(node).len() && nodes.push(node)[k] == n;
            assert(nodes[k] == n);
            assert(nodes.contains(n));
        } else {
            assert(seq![node][0] == n);
            assert(seq![node].contains(n));
        }
    }
}

/// The queues of a side outside its trigger list hold no order twice between them
/// exactly where each two of them are apart.
pub proof fn lemma_listed_once(book: BookView, side: Side)
    ensures
        listed_once(book, side) == ({
            let taking = book.queue(side.of(NodeType::TakingLimit));
            let resting = book.queue(side.of(NodeType::RestingLimit));
            let floating = book.queue(side.of(NodeType::FloatingLimit));
            let market = book.queue(side.of(NodeType::Market));
            &&& apart(taking, resting)
            &&& apart(taking, floating)
            &&& apart(taking, market)
            &&& apart(resting, floating)
            &&& apart(resting, market)
            &&& apart(floating, market)
        }),
{
}

/// Which makers a side has, once the book is brought to the slot, and whether they
/// can be sorted.
proof fn lemma_makers(
    book: BookView,
    side: Side,
    oracle: OraclePriceData,
    slot: u64,
    makers: Seq<Node>,
)
    requires
        book.sound(),
        book.has_market(side.market_type, side.market_index),
        slot <= book.max_slot,
        makers == book.queue(side.of(NodeType::RestingLimit)) + book.queue(
            side.of(NodeType::FloatingLimit),
        ),
    ensures
        forall|n: Node| #[trigger]
            quotes(book, side, oracle, slot).contains(n) <==> makers.contains(n),
        quotes_sortable(book, side, oracle, slot) == (makers.len() <= 1 || all_priced(
            makers,
            oracle,
            slot,
        )),
{
    let resting = book.queue(side.of(NodeType::RestingLimit));
    let floating = book.queue(side.of(NodeType::FloatingLimit));
    lemma_rank_sorted(makers, price_rank(side.sub_type, oracle, slot));
    assert forall|n: Node| #[trigger]
        makers.contains(n) <==> will_quote(book, side, slot, n) by {
        if resting.contains(n) {
            let i = choose|i: int| 0 <= i < resting.len() && resting[i] == n;
            assert(makers[i] == n);
        }
        if floating.contains(n) {
            let i = choose|i: int| 0 <= i < floating.len() && floating[i] == n;
            assert(makers[resting.len() + i] == n);
        }
    }
    if makers.len() <= 1 {
        lemma_few_quotes(book, side, slot);
    }
    if at_most_one_quote(book, side, slot) {
        assert(brought_to(book, slot, book));
        lemma_at_most_one_quote(book, slot, book, side);
    }
    if all_priced(makers, oracle, slot) {
        assert forall|n: Node| #[trigger] will_quote(book, side, slot, n) implies n.priced(
            oracle,
            slot,
        ) by {
            assert(makers.contains(n));
        }
    }
}

/// Whether what a rule pairs is ready hangs on which nodes and makers there are, not
/// on their order.
proof fn lemma_pairs_ready_by_contents(
    rule: MatchRule,
    nodes: Seq<Node>,
    makers: Seq<Node>,
    other_nodes: Seq<Node>,
    other_makers: Seq<Node>,
    oracle: OraclePriceData,
    slot: u64,
)
    requires
        forall|n: Node| #[trigger] nodes.contains(n) <==> other_nodes.contains(n),
        forall|n: Node| #[trigger] makers.contains(n) <==> other_makers.contains(n),
    ensures
        pairs_ready(rule, nodes, makers, oracle, slot) == pairs_ready(
            rule,
            other_nodes,
            other_makers,
            oracle,
            slot,
        ),
{
    if pairs_ready(rule, nodes, makers, oracle, slot) {
        assert forall|n: Node, m: Node| #[trigger]
            other_nodes.contains(n) && #[trigger] other_makers.contains(m) implies can_compare(
            rule,
            n,
            m,
            oracle,
            slot,
        ) && (rule.pairs(n, m, oracle, slot) ==> n.order.within_size()
            && m.order.within_size()) by {
            assert(nodes.contains(n) && makers.contains(m));
        }
    }
    if pairs_ready(rule, other_nodes, other_makers, oracle, slot) {
        assert forall|n: Node, m: Node| #[trigger]
            nodes.contains(n) && #[trigger] makers.contains(m) implies can_compare(
            rule,
            n,
            m,
            oracle,
            slot,
        ) && (rule.pairs(n, m, oracle, slot) ==> n.order.within_size()
            && m.order.within_size()) by {
            assert(other_nodes.contains(n) && other_makers.contains(m));
        }
    }
}

/// Whether the search of a market can start: the market is there, the expiries of
/// its orders and the rebates of the fallback prices can be computed.
pub open spec fn can_start(search: FillSearch, rebate: (u64, u64), book: BookView) -> bool {
    &&& book.has_market(search.market_type, search.market_index)
    &&& expiries_in_range(book.market(search.market_type, search.market_index))
    &&& search.live_bid() matches Some(price) ==> rebate_in_range(price, rebate)
    &&& search.live_ask() matches Some(price) ==> rebate_in_range(price, rebate)
}

/// Whether a search that tests the orders first makes `before` into `after` and
/// yields `found`. A search that cannot start leaves the book as it is. Else the
/// book is brought to the slot, and searched where its orders are then ready.
pub open spec fn tested_and_searched(
    search: FillSearch,
    rebate: (u64, u64),
    ts: i64,
    before: BookView,
    after: BookView,
    found: Option<Seq<Fill>>,
) -> bool {
    if !can_start(search, rebate, before) {
        found is None && after == before
    } else {
        exists|brought: BookView| #[trigger]
            brought_to(before, search.slot, brought) && match found {
                Some(out) => orders_ready(search, brought) && fills_found(
                    search,
                    rebate,
                    ts,
                    before,
                    after,
                    out,
                ) && brought_and_refilled(
                    search.bid_rule(),
                    search.oracle,
                    search.slot,
                    before,
                    after,
                ),
                None => !orders_ready(search, brought) && after == brought,
            }
    }
}

/// What is found in a book that was brought to the slot is found in the book as it
/// was before.
proof fn lemma_found_before(
    search: FillSearch,
    rebate: (u64, u64),
    more: Seq<Fill>,
    before: BookView,
    brought: BookView,
    after: BookView,
    out: Seq<Fill>,
)
    requires
        brought_to(before, search.slot, brought),
        searched_with(search, rebate, more, brought, after, out),
    ensures
        searched_with(search, rebate, more, before, after, out),
{
    let (between, resting_out, taking_out) = choose|
        between: BookView,
        resting_out: Seq<Fill>,
        taking_out: Seq<Fill>,
    | #[trigger]
        resting_found(search, rebate, brought, between, resting_out) && #[trigger] taking_found(
            search,
            between,
            after,
            taking_out,
        ) && out == merged(resting_out + taking_out) + more;
    let crossing = choose|crossing: Seq<Fill>| #[trigger]
        crossing_found(
            search.market_type,
            search.market_index,
            search.oracle,
            search.slot,
            brought,
            between,
            crossing,
        ) && resting_out == crossing + resting_asks_filled(
            search,
            rebate,
            between,
        ) + resting_bids_filled(search, rebate, between);
    assert(crossing_found(
        search.market_type,
        search.market_index,
        search.oracle,
        search.slot,
        before,
        between,
        crossing,
    ));
    assert(resting_found(search, rebate, before, between, resting_out));
}

/// Says whether the rebate of a price can be computed and is no more than the price.
fn is_rebate_in_range(price: Option<u64>, numerator: u64, denominator: u64) -> (in_range: bool)
    ensures
        in_range == (price matches Some(p) ==> rebate_in_range(p, (numerator, denominator))),
{
    match price {
        Some(price) => denominator != 0 && match price.checked_mul(numerator) {
            Some(product) => product / denominator <= price,
            None => false,
        },
        None => true,
    }
}

impl DLOB {
    /// Says whether the orders of a side of a market outside its trigger list can be
    /// asked when they expire.
    fn can_side_expire(
        &self,
        market_type: MarketType,
        market_index: u16,
        sub_type: SubType,
    ) -> (expire: bool)
        requires
            self.wf(),
            self@.has_market(market_type, market_index),
        ensures
            expire == forall|node_type: NodeType|
                node_type != NodeType::Trigger ==> all_expire(
                    #[trigger] self@.market(market_type, market_index).queue(node_type, sub_type),
                ),
    {
        let ghost market = self@.market(market_type, market_index);
        let taking = self.get_best_orders(
            market_type,
            sub_type,
            NodeType::TakingLimit,
            market_index,
        );
        let resting = self.get_best_orders(
            market_type,
            sub_type,
            NodeType::RestingLimit,
            market_index,
        );
        let floating = self.get_best_orders(
            market_type,
            sub_type,
            NodeType::FloatingLimit,
            market_index,
        );
        let market_orders = self.get_best_orders(
            market_type,
            sub_type,
            NodeType::Market,
            market_index,
        );
        let expire = can_all_expire(&taking) && can_all_expire(&resting) && can_all_expire(
            &floating,
        ) && can_all_expire(&market_orders);
        proof {
            assert(taking@ == market.queue(NodeType::TakingLimit, sub_type));
            assert(resting@ == market.queue(NodeType::RestingLimit, sub_type));
            assert(floating@ == market.queue(NodeType::FloatingLimit, sub_type));
            assert(market_orders@ == market.queue(NodeType::Market, sub_type));
        }
        expire
    }

    /// Says whether the orders of a market outside its trigger lists can be asked when
    /// they expire.
    fn can_market_expire(&self, market_type: MarketType, market_index: u16) -> (expire: bool)
        requires
            self.wf(),
            self@.has_market(market_type, market_index),
        ensures
            expire == expiries_in_range(self@.market(market_type, market_index)),
    {
        let bids = self.can_side_expire(market_type, market_index, SubType::Bid);
        let asks = self.can_side_expire(market_type, market_index, SubType::Ask);
        proof {
            let market = self@.market(market_type, market_index);
            if bids && asks {
                assert forall|node_type: NodeType, sub_type: SubType, n: Node|
                    node_type != NodeType::Trigger && #[trigger] market.queue(
                        node_type,
                        sub_type,
                    ).contains(n) implies expiry_in_range(n.order, true) by {
                    assert(all_expire(market.queue(node_type, sub_type)));
                }
            }
            if expiries_in_range(market) {
                assert forall|node_type: NodeType|
                    node_type != NodeType::Trigger implies all_expire(
                    #[trigger] market.queue(node_type, SubType::Bid),
                ) by {}
                assert forall|node_type: NodeType|
                    node_type != NodeType::Trigger implies all_expire(
                    #[trigger] market.queue(node_type, SubType::Ask),
                ) by {}
            }
        }
        bids && asks
    }

    /// Lists the nodes of two queues of a side, those of the first before those of the
    /// second.
    fn list_two(
        &self,
        market_type: MarketType,
        market_index: u16,
        sub_type: SubType,
        first: NodeType,
        second: NodeType,
    ) -> (nodes: Vec<Node>)
        requires
            self.wf(),
            self@.has_market(market_type, market_index),
        ensures
            nodes@ == self@.queue(Place { market_type, market_index, node_type: first, sub_type })
                + self@.queue(Place { market_type, market_index, node_type: second, sub_type }),
    {
        let mut nodes = self.get_best_orders(market_type, sub_type, first, market_index);
        let mut more = self.get_best_orders(market_type, sub_type, second, market_index);
        nodes.append(&mut more);
        nodes
    }

    /// Says whether no order stands in two queues of a side outside its trigger list.
    fn is_listed_once(
        &self,
        market_type: MarketType,
        market_index: u16,
        sub_type: SubType,
    ) -> (once: bool)
        requires
            self.wf(),
            self@.has_market(market_type, market_index),
        ensures
            once == listed_once(self@, Side { market_type, market_index, sub_type }),
    {
        let taking = self.get_best_orders(
            market_type,
            sub_type,
            NodeType::TakingLimit,
            market_index,
        );
        let resting = self.get_best_orders(
            market_type,
            sub_type,
            NodeType::RestingLimit,
            market_index,
        );
        let floating = self.get_best_orders(
            market_type,
            sub_type,
            NodeType::FloatingLimit,
            market_index,
        );
        let market = self.get_best_orders(
            market_type,
            sub_type,
            NodeType::Market,
            market_index,
        );
        proof {
            self.lemma_sound();
            let side = Side { market_type, market_index, sub_type };
            lemma_listed_once(self@, side);
            assert forall|node_type: NodeType, n: Node| #[trigger]
                self@.queue(side.of(node_type)).contains(n) implies text_spells(
                n.user_account,
            ) by {
                assert(self@.has(side.of(node_type)));
                assert(self@.admits(side.of(node_type), n));
            }
        }
        are_apart(&taking, &resting) && are_apart(&taking, &floating) && are_apart(
            &taking,
            &market,
        ) && are_apart(&resting, &floating) && are_apart(&resting, &market) && are_apart(
            &floating,
            &market,
        )
    }

    /// Says whether the orders of a market can be searched for ones to fill. The book
    /// must have been brought to the slot of the search, and the market be there.
    pub fn are_orders_ready(&self, search: &FillSearch) -> (ready: bool)
        requires
            self.wf(),
            search.slot <= self@.max_slot,
            self@.has_market(search.market_type, search.market_index),
        ensures
            ready == orders_ready(*search, self@),
    {
        let market_type = search.market_type;
        let market_index: u16 = search.market_index;
        let oracle = search.oracle;
        let slot: u64 = search.slot;
        let resting = NodeType::RestingLimit;
        let floating = NodeType::FloatingLimit;
        let taking = NodeType::TakingLimit;
        let market = NodeType::Market;
        let asks = self.list_two(market_type, market_index, SubType::Ask, resting, floating);
        let bids = self.list_two(market_type, market_index, SubType::Bid, resting, floating);
        let asks_taking = self.list_two(market_type, market_index, SubType::Ask, taking, market);
        let bids_taking = self.list_two(market_type, market_index, SubType::Bid, taking, market);
        let ask_rule = MatchRule::Taking {
            market_type,
            taker_side: SubType::Ask,
            fallback: search.fallback_bid,
        };
        let bid_rule = MatchRule::Taking {
            market_type,
            taker_side: SubType::Bid,
            fallback: search.fallback_ask,
        };
        let is_bid_live = !search.is_amm_paused && search.fallback_bid.is_some();
        let is_ask_live = !search.is_amm_paused && search.fallback_ask.is_some();
        proof {
            self.lemma_sound();
            lemma_makers(self@, search.asks(), oracle, slot, asks@);
            lemma_makers(self@, search.bids(), oracle, slot, bids@);
            lemma_rank_sorted(asks_taking@, slot_rank());
            lemma_rank_sorted(bids_taking@, slot_rank());
            let ask_quotes = quotes(self@, search.asks(), oracle, slot);
            let bid_quotes = quotes(self@, search.bids(), oracle, slot);
            let ask_takers = takers(self@, search.asks());
            let bid_takers = takers(self@, search.bids());
            lemma_pairs_ready_by_contents(
                MatchRule::Crossing,
                ask_quotes,
                bid_quotes,
                asks@,
                bids@,
                oracle,
                slot,
            );
            lemma_pairs_ready_by_contents(
                ask_rule,
                ask_takers,
                bid_quotes,
                asks_taking@,
                bids@,
                oracle,
                slot,
            );
            lemma_pairs_ready_by_contents(
                bid_rule,
                bid_takers,
                ask_quotes,
                bids_taking@,
                asks@,
                oracle,
                slot,
            );
            lemma_fallback_by_contents(market_type, ask_quotes, asks@, oracle, slot);
            lemma_fallback_by_contents(market_type, bid_quotes, bids@, oracle, slot);
            lemma_fallback_by_contents(market_type, ask_takers, asks_taking@, oracle, slot);
            lemma_fallback_by_contents(market_type, bid_takers, bids_taking@, oracle, slot);
            assert(all_priced(asks@, oracle, slot) == forall|a: Node| #[trigger]
                ask_quotes.contains(a) ==> a.priced(oracle, slot)) by {
                if forall|a: Node| #[trigger] ask_quotes.contains(a) ==> a.priced(oracle, slot) {
                    assert forall|a: Node| #[trigger] asks@.contains(a) implies a.priced(
                        oracle,
                        slot,
                    ) by {
                        assert(ask_quotes.contains(a));
                    }
                }
            }
        }

        let are_asks_sortable = asks.len() <= 1 || are_all_priced(&asks, oracle, slot);
        let are_bids_sortable = bids.len() <= 1 || are_all_priced(&bids, oracle, slot);
        let do_quotes_meet_fallback = (!is_bid_live || are_asks_sortable && can_meet_fallback(
            market_type,
            &asks,
            oracle,
            slot,
        )) && (!is_ask_live || are_bids_sortable && can_meet_fallback(
            market_type,
            &bids,
            oracle,
            slot,
        ));
        let do_takers_meet_fallback = (!is_bid_live || can_meet_fallback(
            market_type,
            &asks_taking,
            oracle,
            slot,
        )) && (!is_ask_live || can_meet_fallback(market_type, &bids_taking, oracle, slot));
        assert(do_quotes_meet_fallback == quotes_meet_fallback(*search, self@));
        assert(do_takers_meet_fallback == takers_meet_fallback(*search, self@));

        self.is_listed_once(market_type, market_index, SubType::Ask) && self.is_listed_once(
            market_type,
            market_index,
            SubType::Bid,
        ) && are_all_priced(&asks, oracle, slot) && are_pairs_ready(
            MatchRule::Crossing,
            &asks,
            &bids,
            oracle,
            slot,
        ) && do_quotes_meet_fallback && (asks_taking.len() == 0 || are_bids_sortable)
            && are_pairs_ready(ask_rule, &asks_taking, &bids, oracle, slot) && are_pairs_ready(
            bid_rule,
            &bids_taking,
            &asks,
            oracle,
            slot,
        ) && do_takers_meet_fallback
    }

    /// Tests the orders of a market one by one and then gives those that can be filled,
    /// as `find_nodes_to_fill` does. Where orders of the market cannot be searched, or
    /// the data at hand does not tell if the AMM is paused, it says so instead. The
    /// book has then been brought to the slot at most.
    pub fn try_find_nodes_to_fill<M: MarketOperations>(
        &mut self,
        market: &M,
        fallback_bid: Option<u64>,
        fallback_ask: Option<u64>,
        slot: u64,
        ts: i64,
        oracle_price_data: OraclePriceData,
        state: State,
    ) -> (found: Result<Option<Vec<NodeToFill>>, NotReady>)
        requires
            old(self).wf(),
        ensures
            final(self).wf(),
            final(self).cell() == old(self).cell(),
            found matches Ok(nodes) ==> nodes is None == market.fill_is_paused(state),
            market.fill_is_paused(state) ==> found is Ok && final(self)@ == old(self)@,
            !market.fill_is_paused(state) && !market.amm_status_known(state) ==> found is Err
                && final(self)@ == old(self)@,
            !market.fill_is_paused(state) && market.amm_status_known(state) ==> exists|
                book: BookView,
            | #[trigger]
                old(self).reads(book) && tested_and_searched(
                    search_under(
                        market,
                        state,
                        slot,
                        oracle_price_data,
                        fallback_bid,
                        fallback_ask,
                    ),
                    market.maker_rebate(state),
                    ts,
                    book,
                    final(self)@,
                    match found {
                        Ok(Some(nodes)) => Some(fills(nodes@)),
                        _ => None,
                    },
                ),
    {
        if market.is_fill_paused(&state) {
            return Ok(None);
        }
        if !market.knows_amm_status(&state) {
            return Err(NotReady);
        }
        let market_type = market.market_type();
        let market_index: u16 = market.market_index();
        let is_amm_paused = market.is_amm_paused(&state);
        let min_auction_duration: u8 = match market_type {
            MarketType::Perp => state.min_perp_auction_duration,
            MarketType::Spot => 0,
        };
        let (maker_rebate_numerator, maker_rebate_denominator) = market.calculate_maker_rebate(
            &state,
        );
        let search = FillSearch {
            market_type,
            market_index,
            slot,
            oracle: oracle_price_data,
            is_amm_paused,
            min_auction_duration,
            fallback_bid,
            fallback_ask,
        };
        let ghost rebate = market.maker_rebate(state);
        assert(search == search_under(
            market,
            state,
            slot,
            oracle_price_data,
            fallback_bid,
            fallback_ask,
        ));

        self.look();
        let ghost read = self@;
        let are_rebates_in_range = is_amm_paused || is_rebate_in_range(
            fallback_bid,
            maker_rebate_numerator,
            maker_rebate_denominator,
        ) && is_rebate_in_range(fallback_ask, maker_rebate_numerator, maker_rebate_denominator);
        if !are_rebates_in_range || !self.has_market(market_type, market_index)
            || !self.can_market_expire(market_type, market_index) {
            assert(!can_start(search, rebate, read));
            return Err(NotReady);
        }
        assert(can_start(search, rebate, read));
        let expired_nodes_to_fill = self.find_expired_orders_to_fill(market_index, market_type, ts);

        self.bring(slot);
        let ghost brought = self@;
        proof {
            old(self).lemma_sound();
            lemma_sound_by_markets(old(self)@, read);
            lemma_brought_to_is_sound(read, slot, brought);
        }
        if !self.are_orders_ready(&search) {
            return Err(NotReady);
        }
        proof {
            lemma_ready_orders_can_be_searched(search, rebate, brought);
        }
        let nodes_to_fill = self.search_orders(
            market,
            slot,
            oracle_price_data,
            is_amm_paused,
            min_auction_duration,
            maker_rebate_numerator,
            maker_rebate_denominator,
            fallback_bid,
            fallback_ask,
            expired_nodes_to_fill,
        );
        proof {
            lemma_found_before(
                search,
                rebate,
                fills(expired_nodes_to_fill@),
                read,
                brought,
                self@,
                fills(nodes_to_fill@),
            );
            assert(brought_and_refilled(search.bid_rule(), search.oracle, slot, brought, self@));
            assert(brought_and_refilled(search.bid_rule(), search.oracle, slot, read, self@));
        }
        Ok(Some(nodes_to_fill))
    }
}

proof fn lemma_fallback_by_contents(
    market_type: MarketType,
    nodes: Seq<Node>,
    other: Seq<Node>,
    oracle: OraclePriceData,
    slot: u64,
)
    requires
        forall|n: Node| #[trigger] nodes.contains(n) <==> other.contains(n),
    ensures
        nodes_meet_fallback(market_type, nodes, oracle, slot) == nodes_meet_fallback(
            market_type,
            other,
            oracle,
            slot,
        ),
{
    if nodes_meet_fallback(market_type, nodes, oracle, slot) {
        assert forall|n: Node| #[trigger] other.contains(n) implies shuns_fallback(market_type, n)
            || n.priced(oracle, slot) by {
            assert(nodes.contains(n));
        }
    }
    if nodes_meet_fallback(market_type, other, oracle, slot) {
        assert forall|n: Node| #[trigger] nodes.contains(n) implies shuns_fallback(market_type, n)
            || n.priced(oracle, slot) by {
            assert(other.contains(n));
        }
    }
}

} // verus!
