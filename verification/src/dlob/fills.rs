//! The matching of nodes with makers, one after the other.

use vstd::prelude::*;

use crate::dlob::book::order_updated;
use crate::dlob::dlob::DLOB;
use crate::dlob::matching::{
    all_filled, all_matched, fills_with, matched, node_matched, pair_filled, taker_crosses,
    used_up, MatchRule,
};
use crate::dlob::node::{fills, Fill, Node, NodeToFill, NodeType, SubType};
use crate::dlob::quotes::{lemma_quotes_are_quoted, quotes, will_quote, Side};
use crate::dlob::readiness::{
    can_compare, can_meet, lemma_pair_filled, lemma_refilled_again, lemma_updated, node_can_match,
    nodes_can_match, refilled,
};
use crate::dlob::resting::brought_to;
use crate::dlob::utils::determine_maker_and_taker;
use crate::pubkey::text_spells;
use crate::types::{MarketType, OraclePriceData, Order};

verus! {

impl MatchRule {
    /// Gives what a match of `node` and `maker` comes to, or nothing where they
    /// are not matched.
    pub fn try_match(
        &self,
        node: &Node,
        maker: &Node,
        oracle_price_data: OraclePriceData,
        slot: u64,
    ) -> (fill: Option<NodeToFill>)
        requires
            can_compare(*self, *node, *maker, oracle_price_data, slot),
        ensures
            fill is Some == self.pairs(*node, *maker, oracle_price_data, slot),
            fill matches Some(f) ==> f@ == self.fill(*node, *maker),
    {
        if node.get_user_account() == maker.get_user_account() {
            return None;
        }
        let node_price: u64 = node.get_price(oracle_price_data, slot);
        let maker_price: u64 = maker.get_price(oracle_price_data, slot);
        match *self {
            MatchRule::Crossing => {
                if maker_price < node_price {
                    return None;
                }
                match determine_maker_and_taker(node, maker) {
                    Some((maker_node, taker_node)) => {
                        let maker_nodes: Vec<Node> = vec![maker_node];
                        let fill = NodeToFill { node: taker_node, maker_nodes };
                        assert(fill@ =~= self.fill(*node, *maker));
                        Some(fill)
                    },
                    None => None,
                }
            },
            MatchRule::Taking { market_type, taker_side, fallback } => {
                if !does_cross(market_type, taker_side, fallback, node_price, maker_price) {
                    return None;
                }
                let maker_nodes: Vec<Node> = vec![*maker];
                let fill = NodeToFill { node: *node, maker_nodes };
                assert(fill@ =~= self.fill(*node, *maker));
                Some(fill)
            },
        }
    }
}

/// Says whether a maker price is good enough for an order that takes.
pub fn does_cross(
    market_type: MarketType,
    taker_side: SubType,
    fallback: Option<u64>,
    taker_price: u64,
    maker_price: u64,
) -> (crosses: bool)
    ensures
        crosses == taker_crosses(
            market_type,
            taker_side,
            fallback,
            taker_price as int,
            maker_price as int,
        ),
{
    match taker_side {
        SubType::Ask => {
            if market_type == MarketType::Spot {
                if let Some(fallback_bid) = fallback {
                    if maker_price < fallback_bid {
                        return false;
                    }
                }
            }
            taker_price <= maker_price
        },
        SubType::Bid => {
            if market_type == MarketType::Spot {
                if let Some(fallback_ask) = fallback {
                    if maker_price > fallback_ask {
                        return false;
                    }
                }
            }
            taker_price >= maker_price
        },
    }
}

proof fn lemma_matched_prefix(
    rule: MatchRule,
    node: Node,
    makers: Seq<Node>,
    oracle: OraclePriceData,
    slot: u64,
    count: int,
)
    requires
        0 <= count <= makers.len(),
        used_up(node, matched(rule, node, makers.take(count), oracle, slot)),
    ensures
        matched(rule, node, makers, oracle, slot) == matched(
            rule,
            node,
            makers.take(count),
            oracle,
            slot,
        ),
    decreases makers.len(),
{
    if count == makers.len() {
        assert(makers.take(count) =~= makers);
    } else {
        let rest = makers.drop_last();
        assert(rest.take(count) =~= makers.take(count));
        lemma_matched_prefix(rule, node, rest, oracle, slot, count);
    }
}

impl DLOB {
    /// Matches `node` with the makers, fills the book by every match and adds
    /// what each comes to.
    #[verifier::rlimit(40)]
    fn fill_with_makers(
        &mut self,
        rule: MatchRule,
        node: &Node,
        makers: &Vec<Node>,
        oracle_price_data: OraclePriceData,
        slot: u64,
        nodes_to_fill: &mut Vec<NodeToFill>,
        Ghost(side): Ghost<Side>,
    )
        requires
            old(self).wf(),
            slot <= old(self)@.max_slot,
            makers@ == quotes(old(self)@, side, oracle_price_data, slot),
            old(self)@.has_market(side.market_type, side.market_index),
            node_can_match(rule, old(self)@, side, *node, oracle_price_data, slot),
        ensures
            final(self).wf(),
            final(self).cell() == old(self).cell(),
            refilled(rule, old(self)@, final(self)@, oracle_price_data, slot),
            all_filled(
                old(self)@,
                *node,
                matched(rule, *node, makers@, oracle_price_data, slot),
                slot,
                final(self)@,
            ),
            fills(final(nodes_to_fill)@) == fills(old(nodes_to_fill)@) + fills_with(
                rule,
                *node,
                matched(rule, *node, makers@, oracle_price_data, slot),
            ),
    {
        proof {
            old(self).lemma_sound();
            assert(brought_to(self@, slot, self@));
            lemma_quotes_are_quoted(self@, slot, self@, side, oracle_price_data);
            assert forall|m: Node| #[trigger] makers@.contains(m) implies will_quote(
                self@,
                side,
                slot,
                m,
            ) && text_spells(m.user_account) && self@.has_market(
                m.order.market_type,
                m.order.market_index,
            ) by {
                let resting = side.of(NodeType::RestingLimit);
                let floating = side.of(NodeType::FloatingLimit);
                assert(will_quote(self@, side, slot, m));
                assert(self@.has(resting) && self@.has(floating));
                if self@.queue(resting).contains(m) {
                    assert(self@.admits(resting, m));
                } else {
                    assert(self@.admits(floating, m));
                }
            }
            assert(matched(rule, *node, makers@.take(0), oracle_price_data, slot) =~= Seq::<
                Node,
            >::empty());
            assert(fills(nodes_to_fill@) =~= fills(nodes_to_fill@) + fills_with(
                rule,
                *node,
                Seq::<Node>::empty(),
            ));
        }
        let mut i: usize = 0;
        while i < makers.len()
            invariant
                i <= makers@.len(),
                self.wf(),
                self.cell() == old(self).cell(),
                slot <= self@.max_slot,
                refilled(rule, old(self)@, self@, oracle_price_data, slot),
                makers@ == quotes(old(self)@, side, oracle_price_data, slot),
                node_can_match(rule, old(self)@, side, *node, oracle_price_data, slot),
                forall|m: Node| #[trigger]
                    makers@.contains(m) ==> text_spells(m.user_account) && old(self)@.has_market(
                        m.order.market_type,
                        m.order.market_index,
                    ),
                !used_up(
                    *node,
                    matched(rule, *node, makers@.take(i as int), oracle_price_data, slot),
                ),
                all_filled(
                    old(self)@,
                    *node,
                    matched(rule, *node, makers@.take(i as int), oracle_price_data, slot),
                    slot,
                    self@,
                ),
                fills(nodes_to_fill@) == fills(old(nodes_to_fill)@) + fills_with(
                    rule,
                    *node,
                    matched(rule, *node, makers@.take(i as int), oracle_price_data, slot),
                ),
            decreases makers@.len() - i,
        {
            let maker: Node = makers[i];
            let ghost before = self@;
            let ghost so_far = matched(
                rule,
                *node,
                makers@.take(i as int),
                oracle_price_data,
                slot,
            );
            let ghost now = matched(rule, *node, makers@.take(i + 1), oracle_price_data, slot);
            proof {
                self.lemma_sound();
                assert(makers@.contains(maker));
                assert(can_meet(rule, old(self)@, *node, makers@[i as int], oracle_price_data, slot));
                assert(makers@.take(i + 1).drop_last() =~= makers@.take(i as int));
                assert(makers@.take(i + 1).last() == maker);
            }
            if let Some(fill) = rule.try_match(node, &maker, oracle_price_data, slot) {
                let ghost filled_before = fills(nodes_to_fill@);
                let ghost filled = fill@;
                nodes_to_fill.push(fill);
                assert(fills(nodes_to_fill@) =~= filled_before.push(filled));

                let maker_base_remaining: u64 = maker.order.base_asset_amount
                    - maker.order.base_asset_amount_filled;
                let node_base_remaining: u64 = node.order.base_asset_amount
                    - node.order.base_asset_amount_filled;
                let base: u64 = if maker_base_remaining <= node_base_remaining {
                    maker_base_remaining
                } else {
                    node_base_remaining
                };

                let mut new_maker_order: Order = maker.order;
                new_maker_order.base_asset_amount_filled = maker.order.base_asset_amount_filled
                    + base;
                let mut new_node_order: Order = node.order;
                new_node_order.base_asset_amount_filled = node.order.base_asset_amount_filled
                    + base;
                assert(new_maker_order == maker.order.with_more_filled(base as int));
                assert(new_node_order == node.order.with_more_filled(base as int));

                assert(self@.has_market(maker.order.market_type, maker.order.market_index));
                assert(self@.has_market(node.order.market_type, node.order.market_index));
                self.update_order(&new_maker_order, &maker.user_account, slot);
                let ghost between = self@;
                proof {
                    lemma_updated(before, new_maker_order, maker.user_account, slot, between);
                    assert(between.has_market(node.order.market_type, node.order.market_index));
                }
                self.update_order(&new_node_order, &node.user_account, slot);

                proof {
                    assert(pair_filled(before, maker, *node, slot, self@)) by {
                        assert(order_updated(
                            before,
                            maker.order.with_more_filled(base as int),
                            maker.user_account,
                            slot,
                            between,
                        ));
                    }
                    lemma_pair_filled(
                        rule,
                        before,
                        maker,
                        *node,
                        oracle_price_data,
                        slot,
                        self@,
                    );
                    lemma_refilled_again(
                        rule,
                        old(self)@,
                        before,
                        self@,
                        oracle_price_data,
                        slot,
                    );
                    assert(now =~= so_far.push(maker));
                    assert(now.drop_last() =~= so_far);
                    assert(now.last() == maker);
                    assert(pair_filled(before, now.last(), *node, slot, self@));
                    assert(all_filled(old(self)@, *node, now, slot, self@));
                    assert(fills_with(rule, *node, now) =~= fills_with(rule, *node, so_far).push(
                        filled,
                    ));
                    assert(fills(nodes_to_fill@) =~= fills(old(nodes_to_fill)@) + fills_with(
                        rule,
                        *node,
                        now,
                    ));
                }
                if new_node_order.base_asset_amount == new_node_order.base_asset_amount_filled {
                    proof {
                        assert(used_up(*node, now));
                        lemma_matched_prefix(
                            rule,
                            *node,
                            makers@,
                            oracle_price_data,
                            slot,
                            i + 1,
                        );
                    }
                    return;
                }
            }
            i += 1;
        }
        assert(makers@.take(i as int) =~= makers@);
    }

    /// Matches the nodes in turn, each with the makers that a side of a market
    /// then has, and fills the book by every match.
    pub(crate) fn match_nodes(
        &mut self,
        rule: MatchRule,
        market_type: MarketType,
        market_index: u16,
        maker_side: SubType,
        nodes: &Vec<Node>,
        oracle_price_data: OraclePriceData,
        slot: u64,
    ) -> (nodes_to_fill: Vec<NodeToFill>)
        requires
            old(self).wf(),
            slot <= old(self)@.max_slot,
            old(self)@.has_market(market_type, market_index),
            nodes_can_match(
                rule,
                old(self)@,
                Side { market_type, market_index, sub_type: maker_side },
                nodes@,
                oracle_price_data,
                slot,
            ),
        ensures
            final(self).wf(),
            final(self).cell() == old(self).cell(),
            refilled(rule, old(self)@, final(self)@, oracle_price_data, slot),
            all_matched(
                rule,
                old(self)@,
                Side { market_type, market_index, sub_type: maker_side },
                nodes@,
                oracle_price_data,
                slot,
                final(self)@,
                fills(nodes_to_fill@),
            ),
    {
        let ghost side = Side { market_type, market_index, sub_type: maker_side };
        let mut nodes_to_fill: Vec<NodeToFill> = Vec::new();
        assert(fills(nodes_to_fill@) =~= Seq::<Fill>::empty());
        let mut i: usize = 0;
        while i < nodes.len()
            invariant
                i <= nodes@.len(),
                self.wf(),
                self.cell() == old(self).cell(),
                old(self).wf(),
                slot <= old(self)@.max_slot,
                side == (Side { market_type, market_index, sub_type: maker_side }),
                old(self)@.has_market(market_type, market_index),
                nodes_can_match(rule, old(self)@, side, nodes@, oracle_price_data, slot),
                    refilled(rule, old(self)@, self@, oracle_price_data, slot),
                all_matched(
                    rule,
                    old(self)@,
                    side,
                    nodes@.take(i as int),
                    oracle_price_data,
                    slot,
                    self@,
                    fills(nodes_to_fill@),
                ),
            decreases nodes@.len() - i,
        {
            let ghost before = self@;
            let ghost so_far = fills(nodes_to_fill@);
            assert(node_can_match(rule, before, side, nodes@[i as int], oracle_price_data, slot));
            assert(before.has_market(market_type, market_index));
            let makers = self.get_resting_limit_orders(
                slot,
                market_type,
                market_index,
                maker_side,
                oracle_price_data,
            );
            assert(self@ == before);
            self.fill_with_makers(
                rule,
                &nodes[i],
                &makers,
                oracle_price_data,
                slot,
                &mut nodes_to_fill,
                Ghost(side),
            );
            proof {
                lemma_refilled_again(
                    rule,
                    old(self)@,
                    before,
                    self@,
                    oracle_price_data,
                    slot,
                );
                assert(nodes@.take(i + 1).drop_last() =~= nodes@.take(i as int));
                assert(nodes@.take(i + 1).last() == nodes@[i as int]);
                assert(node_matched(
                    rule,
                    before,
                    so_far,
                    side,
                    nodes@.take(i + 1).last(),
                    oracle_price_data,
                    slot,
                    self@,
                    fills(nodes_to_fill@),
                ));
            }
            i += 1;
        }
        assert(nodes@.take(i as int) =~= nodes@);
        nodes_to_fill
    }
}

} // verus!
