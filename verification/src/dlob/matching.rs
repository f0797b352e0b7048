//! How orders are matched: which makers fill a node, what that does to the
//! book, and which nodes liquidity from outside the book can fill.

use vstd::prelude::*;

use crate::dlob::book::{order_updated, BookView};
use crate::dlob::market::MarketView;
use crate::dlob::node::{Fill, Node, NodeType, SubType};
use crate::dlob::quotes::{quotes, Side};
use crate::dlob::utils::{auction_end_slot, maker_and_taker};
use crate::math::auction::fallback_available;
use crate::math::order::expired;
use crate::types::{MarketType, OraclePriceData, Order};

verus! {

/// A bound on a price.
#[derive(Clone, Copy, Debug, PartialEq, Eq, Structural)]
pub enum PriceTest {
    Below(u64),
    AtMost(u64),
    Above(u64),
}

impl PriceTest {
    /// Whether a price is within the bound.
    pub open spec fn admits(self, price: int) -> bool {
        match self {
            PriceTest::Below(bound) => price < bound,
            PriceTest::AtMost(bound) => price <= bound,
            PriceTest::Above(bound) => price > bound,
        }
    }

    /// Says whether a price is within the bound.
    pub fn passes(&self, price: u64) -> (passes: bool)
        ensures
            passes == self.admits(price as int),
    {
        match *self {
            PriceTest::Below(bound) => price < bound,
            PriceTest::AtMost(bound) => price <= bound,
            PriceTest::Above(bound) => price > bound,
        }
    }
}

/// Whether liquidity from outside the book does not fill `node` at all: it does
/// not fill post-only orders of spot markets.
pub open spec fn shuns_fallback(market_type: MarketType, node: Node) -> bool {
    market_type == MarketType::Spot && node.order.post_only
}

/// Whether liquidity from outside the book can fill `node`.
pub open spec fn crosses_fallback(
    market_type: MarketType,
    slot: u64,
    oracle: OraclePriceData,
    test: PriceTest,
    min_auction_duration: u8,
    node: Node,
) -> bool {
    &&& !shuns_fallback(market_type, node)
    &&& test.admits(node.price(oracle, slot))
    &&& market_type == MarketType::Spot || fallback_available(
        node.order,
        min_auction_duration,
        slot,
    )
}

/// A node to fill without makers.
pub open spec fn fill_alone(node: Node) -> Fill {
    Fill { node, makers: Seq::empty() }
}

/// The nodes that liquidity from outside the book can fill.
pub open spec fn fallback_fills(
    market_type: MarketType,
    slot: u64,
    oracle: OraclePriceData,
    nodes: Seq<Node>,
    test: PriceTest,
    min_auction_duration: u8,
) -> Seq<Fill> {
    nodes.filter(
        |n: Node| crosses_fallback(market_type, slot, oracle, test, min_auction_duration, n),
    ).map_values(|n: Node| fill_alone(n))
}

/// The nodes whose orders are expired at `ts`.
pub open spec fn expired_nodes(nodes: Seq<Node>, ts: i64) -> Seq<Fill> {
    nodes.filter(|n: Node| expired(n.order, ts, true)).map_values(|n: Node| fill_alone(n))
}

/// The expired nodes of a side of a market: those of the taking, the resting,
/// the floating and the market orders.
pub open spec fn expired_on_side(market: MarketView, sub_type: SubType, ts: i64) -> Seq<Fill> {
    expired_nodes(market.queue(NodeType::TakingLimit, sub_type), ts) + expired_nodes(
        market.queue(NodeType::RestingLimit, sub_type),
        ts,
    ) + expired_nodes(market.queue(NodeType::FloatingLimit, sub_type), ts) + expired_nodes(
        market.queue(NodeType::Market, sub_type),
        ts,
    )
}

/// The expired nodes of a market, the bids first.
pub open spec fn expired_fills(market: MarketView, ts: i64) -> Seq<Fill> {
    expired_on_side(market, SubType::Bid, ts) + expired_on_side(market, SubType::Ask, ts)
}

/// Which makers a node is matched with.
#[derive(Clone, Copy, Debug, PartialEq, Eq, Structural)]
pub enum MatchRule {
    /// A resting ask meets the bids that pay its price or more.
    Crossing,
    /// An order that takes meets the makers of the other side whose price is at
    /// least as good as its own. In a spot market a maker with a price worse
    /// than the fallback does not count.
    Taking { market_type: MarketType, taker_side: SubType, fallback: Option<u64> },
}

/// Whether a maker price is good enough for an order that takes.
pub open spec fn taker_crosses(
    market_type: MarketType,
    taker_side: SubType,
    fallback: Option<u64>,
    taker_price: int,
    maker_price: int,
) -> bool {
    match taker_side {
        SubType::Ask => {
            &&& !(market_type == MarketType::Spot && fallback is Some && maker_price < fallback->0)
            &&& taker_price <= maker_price
        },
        SubType::Bid => {
            &&& !(market_type == MarketType::Spot && fallback is Some && maker_price > fallback->0)
            &&& taker_price >= maker_price
        },
    }
}

impl MatchRule {
    /// Whether `node` and `maker` are matched. Orders of one account never are.
    pub open spec fn pairs(
        self,
        node: Node,
        maker: Node,
        oracle: OraclePriceData,
        slot: u64,
    ) -> bool {
        &&& node.user_account != maker.user_account
        &&& match self {
            MatchRule::Crossing => {
                &&& maker.price(oracle, slot) >= node.price(oracle, slot)
                &&& maker_and_taker(node, maker) is Some
            },
            MatchRule::Taking { market_type, taker_side, fallback } => taker_crosses(
                market_type,
                taker_side,
                fallback,
                node.price(oracle, slot),
                maker.price(oracle, slot),
            ),
        }
    }

    /// What a match comes to: who takes, and from whom.
    pub open spec fn fill(self, node: Node, maker: Node) -> Fill {
        match self {
            MatchRule::Crossing => {
                let pair = maker_and_taker(node, maker)->0;
                Fill { node: pair.1, makers: seq![pair.0] }
            },
            MatchRule::Taking { .. } => Fill { node, makers: seq![maker] },
        }
    }

    /// Whether the slots that the rule compares can be computed.
    pub open spec fn in_range(self, order: Order) -> bool {
        self == MatchRule::Crossing ==> auction_end_slot(order) <= u64::MAX
    }
}

/// How much of two orders is filled when they are matched.
pub open spec fn base_filled(a: Order, b: Order) -> int {
    if a.base_remaining() <= b.base_remaining() {
        a.base_remaining()
    } else {
        b.base_remaining()
    }
}

/// Whether the makers matched so far fill the whole of `node`: the last of them
/// could.
pub open spec fn used_up(node: Node, makers: Seq<Node>) -> bool {
    makers.len() > 0 && makers.last().order.base_remaining() >= node.order.base_remaining()
}

/// The makers that `node` is matched with: those that the rule pairs with it, up
/// to the first that can fill the whole of it.
pub open spec fn matched(
    rule: MatchRule,
    node: Node,
    makers: Seq<Node>,
    oracle: OraclePriceData,
    slot: u64,
) -> Seq<Node>
    decreases makers.len(),
{
    if makers.len() == 0 {
        makers
    } else {
        let so_far = matched(rule, node, makers.drop_last(), oracle, slot);
        if used_up(node, so_far) || !rule.pairs(node, makers.last(), oracle, slot) {
            so_far
        } else {
            so_far.push(makers.last())
        }
    }
}

/// Every maker that a node is matched with is one of the makers at hand, and the
/// rule pairs it with the node.
pub proof fn lemma_matched_are_pairs(
    rule: MatchRule,
    node: Node,
    makers: Seq<Node>,
    oracle: OraclePriceData,
    slot: u64,
)
    ensures
        forall|i: int|
            0 <= i < matched(rule, node, makers, oracle, slot).len() ==> rule.pairs(
                node,
                #[trigger] matched(rule, node, makers, oracle, slot)[i],
                oracle,
                slot,
            ) && makers.contains(matched(rule, node, makers, oracle, slot)[i]),
    decreases makers.len(),
{
    if makers.len() > 0 {
        let rest = makers.drop_last();
        lemma_matched_are_pairs(rule, node, rest, oracle, slot);
        let so_far = matched(rule, node, rest, oracle, slot);
        let all = matched(rule, node, makers, oracle, slot);
        assert forall|i: int| 0 <= i < all.len() implies rule.pairs(
            node,
            #[trigger] all[i],
            oracle,
            slot,
        ) && makers.contains(all[i]) by {
            if i < so_far.len() {
                assert(all[i] == so_far[i]);
                let k = choose|k: int| 0 <= k < rest.len() && rest[k] == all[i];
                assert(makers[k] == all[i]);
            } else {
                assert(makers[makers.len() - 1] == all[i]);
            }
        }
    }
}

/// The fills of `node` with each of the makers.
pub open spec fn fills_with(rule: MatchRule, node: Node, makers: Seq<Node>) -> Seq<Fill> {
    makers.map_values(|maker: Node| rule.fill(node, maker))
}

/// Whether `after` is the book `before` once a maker and then a node are filled
/// by what they have in common.
pub open spec fn pair_filled(
    before: BookView,
    maker: Node,
    node: Node,
    slot: u64,
    after: BookView,
) -> bool {
    let base = base_filled(maker.order, node.order);
    exists|between: BookView| #[trigger]
        order_updated(
            before,
            maker.order.with_more_filled(base),
            maker.user_account,
            slot,
            between,
        ) && order_updated(
            between,
            node.order.with_more_filled(base),
            node.user_account,
            slot,
            after,
        )
}

/// Whether `after` is the book `before` once `node` is filled with each of the
/// makers in turn.
pub open spec fn all_filled(
    before: BookView,
    node: Node,
    makers: Seq<Node>,
    slot: u64,
    after: BookView,
) -> bool
    decreases makers.len(),
{
    if makers.len() == 0 {
        after == before
    } else {
        exists|between: BookView|
            all_filled(before, node, makers.drop_last(), slot, between) && #[trigger] pair_filled(
                between,
                makers.last(),
                node,
                slot,
                after,
            )
    }
}

/// Whether matching `node` with the makers that the book `before` has on `side`
/// makes that into `after`, and the fills `so_far` into `out`.
pub open spec fn node_matched(
    rule: MatchRule,
    before: BookView,
    so_far: Seq<Fill>,
    side: Side,
    node: Node,
    oracle: OraclePriceData,
    slot: u64,
    after: BookView,
    out: Seq<Fill>,
) -> bool {
    let makers = matched(rule, node, quotes(before, side, oracle, slot), oracle, slot);
    &&& all_filled(before, node, makers, slot, after)
    &&& out == so_far + fills_with(rule, node, makers)
}

/// Whether matching the nodes in turn, each with the makers that the book then
/// has on `side`, makes `before` into `after` and yields `out`.
pub open spec fn all_matched(
    rule: MatchRule,
    before: BookView,
    side: Side,
    nodes: Seq<Node>,
    oracle: OraclePriceData,
    slot: u64,
    after: BookView,
    out: Seq<Fill>,
) -> bool
    decreases nodes.len(),
{
    if nodes.len() == 0 {
        after == before && out == Seq::<Fill>::empty()
    } else {
        exists|between: BookView, so_far: Seq<Fill>|
            all_matched(rule, before, side, nodes.drop_last(), oracle, slot, between, so_far)
                && #[trigger] node_matched(
                rule,
                between,
                so_far,
                side,
                nodes.last(),
                oracle,
                slot,
                after,
                out,
            )
    }
}

} // verus!
