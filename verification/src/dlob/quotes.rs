//! The orders of a market that make and those that take, each in the order in
//! which they are matched.

use vstd::prelude::*;

use crate::dlob::book::{BookView, Place};
use crate::dlob::node::{Node, NodeType, SubType};
use crate::dlob::order_queue::is_queue;
use crate::dlob::resting::{
    adds, brought_to, carried_over, comes_to_rest, goes_on_taking, lemma_brought_to_is_sound,
    lemma_carried_over, market_rested, rested, rested_by_some_walk,
};
use crate::dlob::sorting::{lemma_rank_sorted, rank_sorted};
use crate::index::walks;
use crate::types::{MarketType, OraclePriceData};

verus! {

/// The market and the side that a match looks at.
pub struct Side {
    pub market_type: MarketType,
    pub market_index: u16,
    pub sub_type: SubType,
}

impl Side {
    /// The queue of this side in a list of its market.
    pub open spec fn of(self, node_type: NodeType) -> Place {
        Place {
            market_type: self.market_type,
            market_index: self.market_index,
            node_type,
            sub_type: self.sub_type,
        }
    }
}

/// The asks of a market.
pub open spec fn asks_of(market_type: MarketType, market_index: u16) -> Side {
    Side { market_type, market_index, sub_type: SubType::Ask }
}

/// The bids of a market.
pub open spec fn bids_of(market_type: MarketType, market_index: u16) -> Side {
    Side { market_type, market_index, sub_type: SubType::Bid }
}

/// The rank of a maker: the best price has the smallest.
pub open spec fn price_rank(
    sub_type: SubType,
    oracle: OraclePriceData,
    slot: u64,
) -> spec_fn(Node) -> int {
    |n: Node|
        match sub_type {
            SubType::Ask => n.price(oracle, slot),
            SubType::Bid => -n.price(oracle, slot),
        }
}

/// The rank of a taker: the order that was placed last has the smallest.
pub open spec fn slot_rank() -> spec_fn(Node) -> int {
    |n: Node| -(n.order.slot as int)
}

/// The makers of a side: the resting and then the floating limit orders, sorted
/// by price, the best first.
pub open spec fn quotes(
    book: BookView,
    side: Side,
    oracle: OraclePriceData,
    slot: u64,
) -> Seq<Node> {
    rank_sorted(
        book.queue(side.of(NodeType::RestingLimit)) + book.queue(
            side.of(NodeType::FloatingLimit),
        ),
        price_rank(side.sub_type, oracle, slot),
    )
}

/// The takers of a side: the taking limit orders and then the market orders,
/// sorted by the slot in which they were placed, the latest first.
pub open spec fn takers(book: BookView, side: Side) -> Seq<Node> {
    rank_sorted(
        book.queue(side.of(NodeType::TakingLimit)) + book.queue(side.of(NodeType::Market)),
        slot_rank(),
    )
}

/// Whether a node will be among the resting orders of a side once the book is
/// brought to `slot`.
pub open spec fn will_rest(book: BookView, side: Side, slot: u64, node: Node) -> bool {
    let market = book.market(side.market_type, side.market_index);
    let moved = comes_to_rest(market, side.sub_type, slot);
    let stays = book.queue(side.of(NodeType::RestingLimit)).contains(node);
    if slot <= book.max_slot {
        stays
    } else {
        moved(node) || (stays && !adds(moved, node.signature()))
    }
}

/// Whether a node will be among the makers of a side once the book is brought
/// to `slot`.
pub open spec fn will_quote(book: BookView, side: Side, slot: u64, node: Node) -> bool {
    will_rest(book, side, slot, node) || book.queue(side.of(NodeType::FloatingLimit)).contains(node)
}

/// Whether a node can be among the takers of a side once the book is brought to
/// `slot`. Taking limit orders can be carried over from any market of the kind.
pub open spec fn may_take(book: BookView, side: Side, slot: u64, node: Node) -> bool {
    ||| book.queue(side.of(NodeType::Market)).contains(node)
    ||| slot <= book.max_slot && book.queue(side.of(NodeType::TakingLimit)).contains(node)
    ||| slot > book.max_slot && exists|market_index: u16| #[trigger]
        goes_on_in(book, side, slot, node, market_index)
}

/// Whether a node is among the taking limit orders of the market at
/// `market_index` and does not rest in `slot`.
pub open spec fn goes_on_in(
    book: BookView,
    side: Side,
    slot: u64,
    node: Node,
    market_index: u16,
) -> bool {
    &&& book.has_market(side.market_type, market_index)
    &&& goes_on_taking(book.market(side.market_type, market_index), side.sub_type, slot)(node)
}

/// Whether there will be no more than one maker on a side.
pub open spec fn at_most_one_quote(book: BookView, side: Side, slot: u64) -> bool {
    let floating = book.queue(side.of(NodeType::FloatingLimit));
    &&& floating.len() <= 1
    &&& floating.len() == 1 ==> forall|n: Node| !#[trigger] will_rest(book, side, slot, n)
    &&& forall|a: Node, b: Node| #[trigger]
        will_rest(book, side, slot, a) && #[trigger] will_rest(book, side, slot, b) ==> a == b
}

/// Whether every maker of a side will have a price.
pub open spec fn quotes_priced(
    book: BookView,
    side: Side,
    oracle: OraclePriceData,
    slot: u64,
) -> bool {
    forall|n: Node| #[trigger] will_quote(book, side, slot, n) ==> n.priced(oracle, slot)
}

/// Whether the makers of a side can be sorted by price: no price is looked at
/// where there is but one.
pub open spec fn quotes_sortable(
    book: BookView,
    side: Side,
    oracle: OraclePriceData,
    slot: u64,
) -> bool {
    at_most_one_quote(book, side, slot) || quotes_priced(book, side, oracle, slot)
}

/// Bringing a book to a slot puts exactly the orders that will rest into the
/// resting lists, and leaves the floating, market and trigger lists as they are.
pub proof fn lemma_brought_to_quotes(before: BookView, slot: u64, after: BookView, side: Side)
    requires
        before.sound(),
        before.has_market(side.market_type, side.market_index),
        brought_to(before, slot, after),
    ensures
        forall|n: Node| #[trigger]
            after.queue(side.of(NodeType::RestingLimit)).contains(n) <==> will_rest(
                before,
                side,
                slot,
                n,
            ),
        after.queue(side.of(NodeType::FloatingLimit)) == before.queue(
            side.of(NodeType::FloatingLimit),
        ),
        after.queue(side.of(NodeType::Market)) == before.queue(side.of(NodeType::Market)),
        after.queue(side.of(NodeType::Trigger)) == before.queue(side.of(NodeType::Trigger)),
        is_queue(
            NodeType::RestingLimit,
            side.sub_type,
            after.queue(side.of(NodeType::RestingLimit)),
        ),
{
    if slot <= before.max_slot {
        assert(before.has(side.of(NodeType::RestingLimit)));
    } else {
        let old_markets = before.markets(side.market_type);
        let new_markets = after.markets(side.market_type);
        assert(rested_by_some_walk(old_markets, slot, new_markets));
        let walk = choose|walk: Seq<u16>|
            walks(walk, old_markets) && #[trigger] rested(old_markets, walk, slot, new_markets);
        assert(walk.contains(side.market_index));
        let k = choose|k: int| 0 <= k < walk.len() && walk[k] == side.market_index;
        let carried = carried_over(new_markets, walk, k);
        assert(market_rested(old_markets[walk[k]], carried, slot, new_markets[walk[k]]));
        assert(after.queue(side.of(NodeType::RestingLimit)) == new_markets[walk[k]].queue(
            NodeType::RestingLimit,
            side.sub_type,
        ));
    }
}

/// The takers of a side once a book is brought to a slot are among those that
/// could be.
pub proof fn lemma_brought_to_takers(before: BookView, slot: u64, after: BookView, side: Side)
    requires
        before.sound(),
        before.has_market(side.market_type, side.market_index),
        brought_to(before, slot, after),
    ensures
        forall|n: Node| #[trigger]
            may_take(after, side, slot, n) ==> may_take(before, side, slot, n),
        forall|n: Node| #[trigger]
            takers(after, side).contains(n) ==> may_take(before, side, slot, n),
{
    let taking = side.of(NodeType::TakingLimit);
    let market = side.of(NodeType::Market);
    lemma_brought_to_quotes(before, slot, after, side);
    lemma_brought_to_is_sound(before, slot, after);
    assert forall|n: Node| #[trigger] after.queue(taking).contains(n) implies may_take(
        before,
        side,
        slot,
        n,
    ) by {
        if slot > before.max_slot {
            let old_markets = before.markets(side.market_type);
            let new_markets = after.markets(side.market_type);
            assert(rested_by_some_walk(old_markets, slot, new_markets));
            let walk = choose|walk: Seq<u16>|
                walks(walk, old_markets) && #[trigger] rested(old_markets, walk, slot, new_markets);
            assert(walk.contains(side.market_index));
            let k = choose|k: int| 0 <= k < walk.len() && walk[k] == side.market_index;
            let j = lemma_carried_over(
                old_markets,
                walk,
                slot,
                new_markets,
                k,
                side.sub_type,
                n,
            );
            assert(walk.contains(walk[j]));
            assert(goes_on_in(before, side, slot, n, walk[j]));
        }
    }
    lemma_rank_sorted(after.queue(taking) + after.queue(market), slot_rank());
    assert forall|n: Node| #[trigger] takers(after, side).contains(n) implies may_take(
        before,
        side,
        slot,
        n,
    ) by {
        let both = after.queue(taking) + after.queue(market);
        assert(both.contains(n));
        let i = choose|i: int| 0 <= i < both.len() && both[i] == n;
        if i < after.queue(taking).len() {
            assert(after.queue(taking)[i] == n);
            assert(after.queue(taking).contains(n));
        } else {
            assert(after.queue(market)[i - after.queue(taking).len()] == n);
            assert(after.queue(market).contains(n));
        }
    }
}

/// The makers of a book that is brought to a slot are those that were to quote.
pub proof fn lemma_quotes_are_quoted(
    before: BookView,
    slot: u64,
    after: BookView,
    side: Side,
    oracle: OraclePriceData,
)
    requires
        before.sound(),
        before.has_market(side.market_type, side.market_index),
        brought_to(before, slot, after),
    ensures
        forall|n: Node| #[trigger]
            quotes(after, side, oracle, slot).contains(n) <==> will_quote(before, side, slot, n),
{
    let resting = after.queue(side.of(NodeType::RestingLimit));
    let floating = after.queue(side.of(NodeType::FloatingLimit));
    lemma_brought_to_quotes(before, slot, after, side);
    lemma_rank_sorted(resting + floating, price_rank(side.sub_type, oracle, slot));
    assert forall|n: Node| #[trigger] quotes(after, side, oracle, slot).contains(n) <==> will_quote(
        before,
        side,
        slot,
        n,
    ) by {
        assert((resting + floating).contains(n) <==> resting.contains(n) || floating.contains(
            n,
        )) by {
            if resting.contains(n) {
                let i = choose|i: int| 0 <= i < resting.len() && resting[i] == n;
                assert((resting + floating)[i] == n);
            }
            if floating.contains(n) {
                let i = choose|i: int| 0 <= i < floating.len() && floating[i] == n;
                assert((resting + floating)[resting.len() + i] == n);
            }
        }
    }
}

/// A side that will have at most one maker has at most one once the book is
/// brought to the slot.
pub proof fn lemma_at_most_one_quote(before: BookView, slot: u64, after: BookView, side: Side)
    requires
        before.sound(),
        before.has_market(side.market_type, side.market_index),
        brought_to(before, slot, after),
        at_most_one_quote(before, side, slot),
    ensures
        after.queue(side.of(NodeType::RestingLimit)).len() + after.queue(
            side.of(NodeType::FloatingLimit),
        ).len() <= 1,
{
    let resting = after.queue(side.of(NodeType::RestingLimit));
    lemma_brought_to_quotes(before, slot, after, side);
    if resting.len() > 0 {
        assert(resting.contains(resting[0]));
        assert(will_rest(before, side, slot, resting[0]));
    }
    if resting.len() > 1 {
        assert(resting.contains(resting[1]));
        assert(will_rest(before, side, slot, resting[1]));
        assert(resting[0].signature() != resting[1].signature());
    }
}

/// The makers of a side come with the best price first.
pub proof fn lemma_quotes_by_price(
    book: BookView,
    side: Side,
    oracle: OraclePriceData,
    slot: u64,
    i: int,
    j: int,
)
    requires
        0 <= i < j < quotes(book, side, oracle, slot).len(),
    ensures
        side.sub_type == SubType::Ask ==> quotes(book, side, oracle, slot)[i].price(oracle, slot)
            <= quotes(book, side, oracle, slot)[j].price(oracle, slot),
        side.sub_type == SubType::Bid ==> quotes(book, side, oracle, slot)[i].price(oracle, slot)
            >= quotes(book, side, oracle, slot)[j].price(oracle, slot),
{
    let nodes = book.queue(side.of(NodeType::RestingLimit)) + book.queue(
        side.of(NodeType::FloatingLimit),
    );
    let rank = price_rank(side.sub_type, oracle, slot);
    lemma_rank_sorted(nodes, rank);
    assert(rank(rank_sorted(nodes, rank)[i]) <= rank(rank_sorted(nodes, rank)[j]));
}

/// The takers of a side come with the one that was placed last first.
pub proof fn lemma_takers_by_slot(book: BookView, side: Side, i: int, j: int)
    requires
        0 <= i < j < takers(book, side).len(),
    ensures
        takers(book, side)[i].order.slot >= takers(book, side)[j].order.slot,
{
    let nodes = book.queue(side.of(NodeType::TakingLimit)) + book.queue(side.of(NodeType::Market));
    let rank = slot_rank();
    lemma_rank_sorted(nodes, rank);
    assert(rank(rank_sorted(nodes, rank)[i]) <= rank(rank_sorted(nodes, rank)[j]));
}

} // verus!
