//! What holds of the order book as a whole, whichever way it is used.

use vstd::prelude::*;

use crate::dlob::book::{
    empty_book, lemma_with_market, lemma_with_queue, order_inserted, order_place, BookView, Place,
};
use crate::dlob::exchange::{count_below, lemma_count_nothing, order_count};
use crate::dlob::market::{turn, MarketView};
use crate::dlob::matching::{
    all_matched, fills_with, lemma_matched_are_pairs, matched, node_matched, used_up, MatchRule,
};
use crate::dlob::node::{
    lemma_signature_is_injective, order_signature, Fill, Node, NodeType, SubType,
};
use crate::dlob::order_queue::{holds, is_queue, priority};
use crate::dlob::quotes::{quotes, quotes_sortable, Side};
use crate::dlob::readiness::{can_compare, node_can_match, nodes_can_match, refilled};
use crate::dlob::resting::{
    adds, brought_to, carried_over, comes_to_rest, goes_on_taking, lemma_carried_over,
    market_rested, rested, rested_by_some_walk,
};
use crate::dlob::search::{brought_and_refilled, fires_above, fires_below, leading, nodes_triggered};
use crate::dlob::users::{
    gives, is_on, lemma_inserted_is_on, lemma_offered_is_on, offered, on_kind,
};
use crate::index::walks;
use crate::math::order::resting;
use crate::pubkey::{text_spells, Pubkey};
use crate::types::{MarketType, OraclePriceData, Order};

verus! {

/// Inserting an order changes no queue but its own.
pub proof fn lemma_insert_leaves_other_queues(
    before: BookView,
    order: Order,
    account: Pubkey,
    slot: u64,
    after: BookView,
    place: Place,
)
    requires
        order_inserted(before, order, account, slot, after),
        before.has(place),
        place != order_place(order, slot),
    ensures
        after.has(place),
        after.queue(place) == before.queue(place),
{
    let home = order_place(order, slot);
    let ready = before.with_market(order.market_type, order.market_index);
    lemma_with_market(before, order.market_type, order.market_index);
    lemma_with_queue(ready, home, after.queue(home));
}

/// An order that is inserted is found again as it was inserted, unless the book
/// has it in another queue too.
pub proof fn lemma_inserted_order_is_read_back(
    before: BookView,
    order: Order,
    account: Pubkey,
    slot: u64,
    after: BookView,
    kind: MarketType,
    found: Order,
)
    requires
        order_inserted(before, order, account, slot, after),
        forall|place: Place|
            place != order_place(order, slot) && before.has(place) ==> !holds(
                #[trigger] before.queue(place),
                order_signature(order.order_id, account),
            ),
        offered(after, kind, order.order_id, account, found),
    ensures
        kind == order.market_type,
        found == order,
{
    let home = order_place(order, slot);
    let signature = order_signature(order.order_id, account);
    let node = Node { order, user_account: account };
    let ready = before.with_market(order.market_type, order.market_index);
    lemma_with_market(before, order.market_type, order.market_index);
    lemma_with_queue(ready, home, after.queue(home));
    let index = choose|index: u16| #[trigger]
        after.has_market(kind, index) && after.market(kind, index).finds(signature, found);
    let (node_type, sub_type, other) = choose|node_type: NodeType, sub_type: SubType, other: Node|
     #[trigger]
        after.market(kind, index).queue(node_type, sub_type).contains(other) && other.signature()
            == signature && other.order == found && after.market(kind, index).first_with(
            signature,
            node_type,
            sub_type,
        );
    let place = Place { market_type: kind, market_index: index, node_type, sub_type };
    assert(after.has(place) && after.queue(place).contains(other));
    let queue = after.queue(place);
    let i = choose|i: int| 0 <= i < queue.len() && queue[i] == other;
    if place != home {
        assert(ready.has(place));
        assert(queue == ready.queue(place));
        assert(before.has(place)) by {
            if !before.has(place) {
                assert(queue == Seq::<Node>::empty());
            }
        }
        assert(queue == before.queue(place));
        assert(queue[i].signature() == signature);
        assert(holds(before.queue(place), signature));
    } else {
        assert(queue.contains(node));
        let j = choose|j: int| 0 <= j < queue.len() && queue[j] == node;
        if i != j {
            assert(queue[i].signature() != queue[j].signature());
        }
    }
}

/// A look through a market finds no more than one order under a signature.
pub proof fn lemma_market_finds_one(
    book: BookView,
    kind: MarketType,
    index: u16,
    signature: Seq<char>,
    a: Order,
    b: Order,
)
    requires
        book.sound(),
        book.has_market(kind, index),
        book.market(kind, index).finds(signature, a),
        book.market(kind, index).finds(signature, b),
    ensures
        a == b,
{
    let market = book.market(kind, index);
    let (at, aside, anode) = choose|t: NodeType, s: SubType, n: Node| #[trigger]
        market.queue(t, s).contains(n) && n.signature() == signature && n.order == a
            && market.first_with(signature, t, s);
    let (bt, bside, bnode) = choose|t: NodeType, s: SubType, n: Node| #[trigger]
        market.queue(t, s).contains(n) && n.signature() == signature && n.order == b
            && market.first_with(signature, t, s);
    let i = choose|i: int| 0 <= i < market.queue(at, aside).len() && market.queue(at, aside)[i]
        == anode;
    let j = choose|j: int| 0 <= j < market.queue(bt, bside).len() && market.queue(bt, bside)[j]
        == bnode;
    assert(market.queue(at, aside)[i].signature() == signature);
    assert(market.queue(bt, bside)[j].signature() == signature);
    assert(holds(market.queue(at, aside), signature));
    assert(holds(market.queue(bt, bside), signature));
    assert(turn(at, aside) == turn(bt, bside));
    assert(at == bt && aside == bside);
    let place = Place { market_type: kind, market_index: index, node_type: at, sub_type: aside };
    assert(book.has(place));
    assert(is_queue(at, aside, book.queue(place)));
    if i != j {
        assert(book.queue(place)[i].signature() != book.queue(place)[j].signature());
    }
}

proof fn lemma_insert_keeps_other_queues_readable(
    before: BookView,
    order: Order,
    account: Pubkey,
    slot: u64,
    after: BookView,
    signature: Seq<char>,
)
    requires
        order_inserted(before, order, account, slot, after),
        signature != order_signature(order.order_id, account),
    ensures
        forall|place: Place, n: Node|
            n.signature() == signature ==> (after.has(place) && #[trigger] after.queue(
                place,
            ).contains(n) <==> before.has(place) && before.queue(place).contains(n)),
        forall|place: Place|
            after.has(place) && holds(#[trigger] after.queue(place), signature) <==> before.has(
                place,
            ) && holds(before.queue(place), signature),
        forall|place: Place|
            before.has(place) ==> #[trigger] after.has(place),
        forall|place: Place|
            #[trigger] after.has(place) && !before.has(place) ==> !holds(
                after.queue(place),
                signature,
            ),
{
    let home = order_place(order, slot);
    let node = Node { order, user_account: account };
    let ready = before.with_market(order.market_type, order.market_index);
    lemma_with_market(before, order.market_type, order.market_index);
    lemma_with_queue(ready, home, after.queue(home));
    assert forall|place: Place, n: Node| n.signature() == signature implies (after.has(place)
        && #[trigger] after.queue(place).contains(n) <==> before.has(place) && before.queue(
        place,
    ).contains(n)) by {
        assert(after.has(place) == ready.has(place));
        if place != home {
            assert(after.queue(place) == ready.queue(place));
        }
        assert(node.signature() != signature);
        if ready.has(place) && !before.has(place) {
            assert(ready.queue(place) == Seq::<Node>::empty());
        }
        if before.has(place) {
            assert(ready.queue(place) == before.queue(place));
        }
    }
    assert forall|place: Place| after.has(place) && holds(
        #[trigger] after.queue(place),
        signature,
    ) <==> before.has(place) && holds(before.queue(place), signature) by {
        let a = after.queue(place);
        let b = before.queue(place);
        if after.has(place) && holds(a, signature) {
            let i = choose|i: int| 0 <= i < a.len() && (#[trigger] a[i]).signature() == signature;
            assert(a.contains(a[i]));
            assert(b.contains(a[i]));
            let j = choose|j: int| 0 <= j < b.len() && b[j] == a[i];
            assert(b[j].signature() == signature);
        }
        if before.has(place) && holds(b, signature) {
            let i = choose|i: int| 0 <= i < b.len() && (#[trigger] b[i]).signature() == signature;
            assert(b.contains(b[i]));
            assert(a.contains(b[i]));
            let j = choose|j: int| 0 <= j < a.len() && a[j] == b[i];
            assert(a[j].signature() == signature);
        }
    }
}

proof fn lemma_same_finds(
    one: BookView,
    two: BookView,
    kind: MarketType,
    index: u16,
    signature: Seq<char>,
    order: Order,
)
    requires
        one.has_market(kind, index),
        one.market(kind, index).finds(signature, order),
        forall|place: Place, n: Node|
            n.signature() == signature && one.has(place) && #[trigger] one.queue(place).contains(n)
                ==> two.has(place) && two.queue(place).contains(n),
        forall|place: Place|
            two.has(place) && holds(#[trigger] two.queue(place), signature) ==> one.has(place)
                && holds(one.queue(place), signature),
    ensures
        two.has_market(kind, index),
        two.market(kind, index).finds(signature, order),
{
    let (t, s, node) = choose|t: NodeType, s: SubType, n: Node| #[trigger]
        one.market(kind, index).queue(t, s).contains(n) && n.signature() == signature && n.order
            == order && one.market(kind, index).first_with(signature, t, s);
    let place = Place { market_type: kind, market_index: index, node_type: t, sub_type: s };
    assert(one.has(place) && one.queue(place).contains(node));
    assert(two.has(place) && two.queue(place).contains(node));
    assert(two.market(kind, index).queue(t, s).contains(node));
    assert forall|earlier: NodeType, side: SubType| turn(earlier, side) < turn(t, s) implies !holds(
        #[trigger] two.market(kind, index).queue(earlier, side),
        signature,
    ) by {
        let other = Place { node_type: earlier, sub_type: side, ..place };
        assert(two.has(other));
        if holds(two.queue(other), signature) {
            assert(holds(one.queue(other), signature));
            assert(!holds(one.market(kind, index).queue(earlier, side), signature));
        }
    }
    assert(two.market(kind, index).first_with(signature, t, s));
}

/// Inserting an order leaves what a look for any other order can come to. One
/// number under two accounts is two orders.
pub proof fn lemma_insert_leaves_other_answers(
    before: BookView,
    order: Order,
    account: Pubkey,
    slot: u64,
    after: BookView,
    order_id: u32,
    other: Pubkey,
    found: Option<Order>,
)
    requires
        order_inserted(before, order, account, slot, after),
        text_spells(account),
        text_spells(other),
        order_id != order.order_id || other != account,
    ensures
        gives(after, order_id, other, found) <==> gives(before, order_id, other, found),
{
    let signature = order_signature(order_id, other);
    if signature == order_signature(order.order_id, account) {
        lemma_signature_is_injective(order_id, other, order.order_id, account);
    }
    lemma_insert_keeps_other_queues_readable(before, order, account, slot, after, signature);
    assert forall|kind: MarketType| #[trigger] on_kind(after, kind, order_id, other) <==> on_kind(
        before,
        kind,
        order_id,
        other,
    ) by {
        if on_kind(after, kind, order_id, other) {
            let place = choose|place: Place|
                place.market_type == kind && after.has(place) && holds(
                    #[trigger] after.queue(place),
                    signature,
                );
            assert(holds(before.queue(place), signature));
        }
        if on_kind(before, kind, order_id, other) {
            let place = choose|place: Place|
                place.market_type == kind && before.has(place) && holds(
                    #[trigger] before.queue(place),
                    signature,
                );
            assert(holds(after.queue(place), signature));
        }
    }
    assert(is_on(after, order_id, other) <==> is_on(before, order_id, other)) by {
        if is_on(after, order_id, other) {
            let place = choose|place: Place|
                after.has(place) && holds(#[trigger] after.queue(place), signature);
            assert(holds(before.queue(place), signature));
        }
        if is_on(before, order_id, other) {
            let place = choose|place: Place|
                before.has(place) && holds(#[trigger] before.queue(place), signature);
            assert(holds(after.queue(place), signature));
        }
    }
    if let Some(o) = found {
        assert forall|kind: MarketType| #[trigger]
            offered(after, kind, order_id, other, o) <==> offered(
            before,
            kind,
            order_id,
            other,
            o,
        ) by {
            if offered(after, kind, order_id, other, o) {
                let index = choose|index: u16| #[trigger]
                    after.has_market(kind, index) && after.market(kind, index).finds(signature, o);
                assert forall|place: Place|
                    before.has(place) && holds(
                        #[trigger] before.queue(place),
                        signature,
                    ) implies after.has(place) && holds(after.queue(place), signature) by {
                    assert(holds(after.queue(place), signature));
                }
                assert forall|place: Place, n: Node|
                    n.signature() == signature && after.has(place) && #[trigger] after.queue(
                        place,
                    ).contains(n) implies before.has(place) && before.queue(place).contains(n) by {
                }
                lemma_same_finds(after, before, kind, index, signature, o);
                assert(before.has_market(kind, index));
            }
            if offered(before, kind, order_id, other, o) {
                let index = choose|index: u16| #[trigger]
                    before.has_market(kind, index) && before.market(kind, index).finds(
                        signature,
                        o,
                    );
                assert forall|place: Place, n: Node|
                    n.signature() == signature && before.has(place) && #[trigger] before.queue(
                        place,
                    ).contains(n) implies after.has(place) && after.queue(place).contains(n) by {
                    assert(after.queue(place).contains(n));
                }
                lemma_same_finds(before, after, kind, index, signature, o);
                assert(after.has_market(kind, index));
            }
        }
    }
}

/// After an order that was not on the book is inserted, a look for it comes to the
/// order as it was inserted and to nothing else.
pub proof fn lemma_new_order_is_the_answer(
    before: BookView,
    order: Order,
    account: Pubkey,
    slot: u64,
    after: BookView,
    found: Option<Order>,
)
    requires
        order_inserted(before, order, account, slot, after),
        !is_on(before, order.order_id, account),
        gives(after, order.order_id, account, found),
    ensures
        found == Some(order),
{
    lemma_inserted_is_on(before, order, account, slot, after);
    let kind = if on_kind(after, MarketType::Perp, order.order_id, account) {
        MarketType::Perp
    } else {
        MarketType::Spot
    };
    lemma_inserted_order_is_read_back(before, order, account, slot, after, kind, found->0);
}

/// A look for an order that no two markets of a kind have comes to one answer.
pub proof fn lemma_one_answer(
    book: BookView,
    order_id: u32,
    account: Pubkey,
    a: Option<Order>,
    b: Option<Order>,
)
    requires
        book.sound(),
        forall|p: Place, q: Place|
            p.market_type == q.market_type && book.has(p) && book.has(q) && holds(
                #[trigger] book.queue(p),
                order_signature(order_id, account),
            ) && holds(#[trigger] book.queue(q), order_signature(order_id, account))
                ==> p.market_index == q.market_index,
        gives(book, order_id, account, a),
        gives(book, order_id, account, b),
    ensures
        a == b,
{
    let signature = order_signature(order_id, account);
    let kind = if on_kind(book, MarketType::Perp, order_id, account) {
        MarketType::Perp
    } else {
        MarketType::Spot
    };
    if a is Some {
        lemma_offered_is_on(book, kind, order_id, account, a->0);
    }
    if b is Some {
        lemma_offered_is_on(book, kind, order_id, account, b->0);
    }
    if a is Some && b is Some {
        let i = choose|i: u16| #[trigger]
            book.has_market(kind, i) && book.market(kind, i).finds(signature, a->0);
        let j = choose|j: u16| #[trigger]
            book.has_market(kind, j) && book.market(kind, j).finds(signature, b->0);
        let p = lemma_found_place(book, kind, i, signature, a->0);
        let q = lemma_found_place(book, kind, j, signature, b->0);
        assert(p.market_index == q.market_index);
        lemma_market_finds_one(book, kind, i, signature, a->0, b->0);
    }
}

proof fn lemma_found_place(
    book: BookView,
    kind: MarketType,
    index: u16,
    signature: Seq<char>,
    order: Order,
) -> (place: Place)
    requires
        book.has_market(kind, index),
        book.market(kind, index).finds(signature, order),
    ensures
        place.market_type == kind,
        place.market_index == index,
        book.has(place),
        holds(book.queue(place), signature),
{
    let (t, s, node) = choose|t: NodeType, s: SubType, n: Node| #[trigger]
        book.market(kind, index).queue(t, s).contains(n) && n.signature() == signature && n.order
            == order && book.market(kind, index).first_with(signature, t, s);
    let place = Place { market_type: kind, market_index: index, node_type: t, sub_type: s };
    let queue = book.queue(place);
    assert(queue.contains(node));
    let i = choose|i: int| 0 <= i < queue.len() && queue[i] == node;
    assert(queue[i].signature() == signature);
    place
}

/// The nodes of a queue come with the one of the greatest priority first, and no
/// order is named twice.
pub proof fn lemma_best_first(book: BookView, place: Place, i: int, j: int)
    requires
        book.sound(),
        book.has(place),
        0 <= i < j < book.queue(place).len(),
    ensures
        priority(place.node_type, place.sub_type, book.queue(place)[i].order) >= priority(
            place.node_type,
            place.sub_type,
            book.queue(place)[j].order,
        ),
        book.queue(place)[i].signature() != book.queue(place)[j].signature(),
{
    assert(is_queue(place.node_type, place.sub_type, book.queue(place)));
}

/// Bringing a book to a slot a second time changes nothing, and neither does
/// bringing it to an earlier one.
pub proof fn lemma_brought_to_is_idempotent(
    before: BookView,
    slot: u64,
    after: BookView,
    earlier: u64,
    again: BookView,
)
    requires
        brought_to(before, slot, after),
        earlier <= slot,
        brought_to(after, earlier, again),
    ensures
        again == after,
{
}

/// Once a book is brought to a slot for the first time, no order among its taking
/// limit orders rests in that slot.
pub proof fn lemma_brought_to_leaves_none_to_rest(
    before: BookView,
    slot: u64,
    after: BookView,
    place: Place,
    node: Node,
)
    requires
        brought_to(before, slot, after),
        slot > before.max_slot,
        after.has(place),
        place.node_type == NodeType::TakingLimit,
        after.queue(place).contains(node),
    ensures
        !resting(node.order, slot),
{
    let old_markets = before.markets(place.market_type);
    let new_markets = after.markets(place.market_type);
    assert(rested_by_some_walk(old_markets, slot, new_markets));
    let walk = choose|walk: Seq<u16>|
        walks(walk, old_markets) && #[trigger] rested(old_markets, walk, slot, new_markets);
    assert(old_markets.contains_key(place.market_index));
    assert(walk.contains(place.market_index));
    let k = choose|k: int| 0 <= k < walk.len() && walk[k] == place.market_index;
    lemma_carried_over(old_markets, walk, slot, new_markets, k, place.sub_type, node);
}

/// Bringing a book to a slot loses no order.
pub proof fn lemma_brought_to_keeps_orders(
    before: BookView,
    slot: u64,
    after: BookView,
    order_id: u32,
    account: Pubkey,
)
    requires
        brought_to(before, slot, after),
        is_on(before, order_id, account),
    ensures
        is_on(after, order_id, account),
{
    if slot > before.max_slot {
        let signature = order_signature(order_id, account);
        let place = choose|place: Place|
            before.has(place) && holds(#[trigger] before.queue(place), signature);
        let old_markets = before.markets(place.market_type);
        let new_markets = after.markets(place.market_type);
        assert(rested_by_some_walk(old_markets, slot, new_markets));
        let walk = choose|walk: Seq<u16>|
            walks(walk, old_markets) && #[trigger] rested(old_markets, walk, slot, new_markets);
        assert(old_markets.contains_key(place.market_index));
        assert(walk.contains(place.market_index));
        let k = choose|k: int| 0 <= k < walk.len() && walk[k] == place.market_index;
        let market = old_markets[walk[k]];
        let carried = carried_over(new_markets, walk, k);
        assert(market_rested(market, carried, slot, new_markets[walk[k]]));
        let i = choose|i: int|
            0 <= i < before.queue(place).len() && (#[trigger] before.queue(place)[i]).signature()
                == signature;
        let node = before.queue(place)[i];
        assert(before.queue(place).contains(node));
        let moved = comes_to_rest(market, place.sub_type, slot);
        let rests = Place { node_type: NodeType::RestingLimit, ..place };
        let takes = Place { node_type: NodeType::TakingLimit, ..place };
        assert(after.queue(rests) == new_markets[walk[k]].queue(
            NodeType::RestingLimit,
            place.sub_type,
        ));
        assert(after.queue(takes) == new_markets[walk[k]].queue(
            NodeType::TakingLimit,
            place.sub_type,
        ));
        let (home, kept) = match place.node_type {
            NodeType::TakingLimit => if resting(node.order, slot) {
                assert(moved(node));
                (rests, node)
            } else {
                assert(goes_on_taking(market, place.sub_type, slot)(node));
                (takes, node)
            },
            NodeType::RestingLimit => if adds(moved, signature) {
                let newer = choose|n: Node| #[trigger] moved(n) && n.signature() == signature;
                (rests, newer)
            } else {
                (rests, node)
            },
            _ => (place, node),
        };
        assert(after.queue(home).contains(kept));
        let j = choose|j: int| 0 <= j < after.queue(home).len() && after.queue(home)[j] == kept;
        assert(after.queue(home)[j].signature() == signature);
        assert(after.has(home));
        assert(holds(after.queue(home), signature));
    }
}

/// Whether `fill` is what a match of one of the nodes with some maker comes to.
pub open spec fn is_match(
    rule: MatchRule,
    nodes: Seq<Node>,
    oracle: OraclePriceData,
    slot: u64,
    fill: Fill,
) -> bool {
    exists|node: Node, maker: Node| #[trigger]
        rule.pairs(node, maker, oracle, slot) && nodes.contains(node) && fill == rule.fill(
            node,
            maker,
        )
}

/// Every fill that matching yields is a match of one of the nodes with a maker
/// that the rule pairs with it.
pub proof fn lemma_fills_are_matches(
    rule: MatchRule,
    before: BookView,
    side: Side,
    nodes: Seq<Node>,
    oracle: OraclePriceData,
    slot: u64,
    after: BookView,
    out: Seq<Fill>,
)
    requires
        all_matched(rule, before, side, nodes, oracle, slot, after, out),
    ensures
        forall|i: int|
            0 <= i < out.len() ==> is_match(rule, nodes, oracle, slot, #[trigger] out[i]),
    decreases nodes.len(),
{
    if nodes.len() > 0 {
        let node = nodes.last();
        let rest = nodes.drop_last();
        let (between, so_far) = choose|between: BookView, so_far: Seq<Fill>|
            all_matched(rule, before, side, rest, oracle, slot, between, so_far)
                && #[trigger] node_matched(
                rule,
                between,
                so_far,
                side,
                node,
                oracle,
                slot,
                after,
                out,
            );
        let makers = quotes(between, side, oracle, slot);
        let pairs = matched(rule, node, makers, oracle, slot);
        lemma_fills_are_matches(rule, before, side, rest, oracle, slot, between, so_far);
        lemma_matched_are_pairs(rule, node, makers, oracle, slot);
        assert forall|i: int| 0 <= i < out.len() implies is_match(
            rule,
            nodes,
            oracle,
            slot,
            #[trigger] out[i],
        ) by {
            if i < so_far.len() {
                assert(out[i] == so_far[i]);
                let (n, m) = choose|n: Node, m: Node| #[trigger]
                    rule.pairs(n, m, oracle, slot) && rest.contains(n) && so_far[i] == rule.fill(
                        n,
                        m,
                    );
                let k = choose|k: int| 0 <= k < rest.len() && rest[k] == n;
                assert(nodes[k] == n);
                assert(nodes.contains(n));
            } else {
                let maker = pairs[i - so_far.len()];
                assert(out[i] == fills_with(rule, node, pairs)[i - so_far.len()]);
                assert(rule.pairs(node, maker, oracle, slot));
                assert(nodes.contains(node));
            }
        }
    }
}

/// A fill is never between two orders of one account, and it has one maker.
pub proof fn lemma_no_account_fills_itself(
    rule: MatchRule,
    before: BookView,
    side: Side,
    nodes: Seq<Node>,
    oracle: OraclePriceData,
    slot: u64,
    after: BookView,
    out: Seq<Fill>,
    i: int,
)
    requires
        all_matched(rule, before, side, nodes, oracle, slot, after, out),
        0 <= i < out.len(),
    ensures
        out[i].makers.len() == 1,
        out[i].node.user_account != out[i].makers[0].user_account,
{
    lemma_fills_are_matches(rule, before, side, nodes, oracle, slot, after, out);
    assert(is_match(rule, nodes, oracle, slot, out[i]));
    let (node, maker) = choose|node: Node, maker: Node| #[trigger]
        rule.pairs(node, maker, oracle, slot) && nodes.contains(node) && out[i] == rule.fill(
            node,
            maker,
        );
}

/// Whether the rule pairs none of the nodes with a maker that the side has.
pub open spec fn nothing_pairs(
    rule: MatchRule,
    book: BookView,
    side: Side,
    nodes: Seq<Node>,
    oracle: OraclePriceData,
    slot: u64,
) -> bool {
    forall|n: Node, m: Node| #[trigger]
        nodes.contains(n) && #[trigger] quotes(book, side, oracle, slot).contains(m)
            ==> !rule.pairs(n, m, oracle, slot)
}

/// Where the rule pairs none of the nodes with a maker, matching them yields nothing
/// and leaves the book as it is.
pub proof fn lemma_nothing_is_matched(
    rule: MatchRule,
    before: BookView,
    side: Side,
    nodes: Seq<Node>,
    oracle: OraclePriceData,
    slot: u64,
    after: BookView,
    out: Seq<Fill>,
)
    requires
        nothing_pairs(rule, before, side, nodes, oracle, slot),
        all_matched(rule, before, side, nodes, oracle, slot, after, out),
    ensures
        after == before,
        out == Seq::<Fill>::empty(),
    decreases nodes.len(),
{
    if nodes.len() > 0 {
        let node = nodes.last();
        let rest = nodes.drop_last();
        let (between, so_far) = choose|between: BookView, so_far: Seq<Fill>|
            all_matched(rule, before, side, rest, oracle, slot, between, so_far)
                && #[trigger] node_matched(
                rule,
                between,
                so_far,
                side,
                node,
                oracle,
                slot,
                after,
                out,
            );
        assert forall|n: Node, m: Node| #[trigger]
            rest.contains(n) && #[trigger] quotes(before, side, oracle, slot).contains(
                m,
            ) implies !rule.pairs(n, m, oracle, slot) by {
            let i = choose|i: int| 0 <= i < rest.len() && rest[i] == n;
            assert(nodes[i] == n);
            assert(nodes.contains(n));
        }
        lemma_nothing_is_matched(rule, before, side, rest, oracle, slot, between, so_far);
        let makers = quotes(before, side, oracle, slot);
        let pairs = matched(rule, node, makers, oracle, slot);
        lemma_matched_are_pairs(rule, node, makers, oracle, slot);
        assert(nodes.contains(node));
        if pairs.len() > 0 {
            assert(rule.pairs(node, pairs[0], oracle, slot));
            assert(makers.contains(pairs[0]));
        }
        assert(out =~= Seq::<Fill>::empty());
    }
}

/// Nodes that the rule pairs with no maker need no sizes: it is enough that they can
/// be held against the makers.
pub proof fn lemma_unmatched_nodes_can_match(
    rule: MatchRule,
    book: BookView,
    side: Side,
    nodes: Seq<Node>,
    oracle: OraclePriceData,
    slot: u64,
)
    requires
        nothing_pairs(rule, book, side, nodes, oracle, slot),
        nodes.len() > 0 ==> quotes_sortable(book, side, oracle, slot),
        forall|n: Node, m: Node| #[trigger]
            nodes.contains(n) && #[trigger] quotes(book, side, oracle, slot).contains(m)
                ==> can_compare(rule, n, m, oracle, slot),
    ensures
        nodes_can_match(rule, book, side, nodes, oracle, slot),
{
    assert forall|k: int, between: BookView, so_far: Seq<Fill>|
        0 <= k < nodes.len() && #[trigger] all_matched(
            rule,
            book,
            side,
            nodes.take(k),
            oracle,
            slot,
            between,
            so_far,
        ) implies node_can_match(rule, between, side, nodes[k], oracle, slot) by {
        let first = nodes.take(k);
        assert forall|n: Node, m: Node| #[trigger]
            first.contains(n) && #[trigger] quotes(book, side, oracle, slot).contains(
                m,
            ) implies !rule.pairs(n, m, oracle, slot) by {
            let i = choose|i: int| 0 <= i < first.len() && first[i] == n;
            assert(nodes[i] == n);
            assert(nodes.contains(n));
        }
        lemma_nothing_is_matched(rule, book, side, first, oracle, slot, between, so_far);
        let makers = quotes(book, side, oracle, slot);
        assert(nodes.contains(nodes[k]));
        assert forall|i: int| 0 <= i < makers.len() implies makers.contains(
            #[trigger] makers[i],
        ) by {}
    }
}

/// Of the makers that a node is matched with, only the last can fill the whole of
/// it.
pub proof fn lemma_matching_stops_when_filled(
    rule: MatchRule,
    node: Node,
    makers: Seq<Node>,
    oracle: OraclePriceData,
    slot: u64,
    i: int,
)
    requires
        0 <= i < matched(rule, node, makers, oracle, slot).len() - 1,
    ensures
        matched(rule, node, makers, oracle, slot)[i].order.base_remaining()
            < node.order.base_remaining(),
    decreases makers.len(),
{
    if makers.len() > 0 {
        let so_far = matched(rule, node, makers.drop_last(), oracle, slot);
        if i < so_far.len() - 1 {
            lemma_matching_stops_when_filled(rule, node, makers.drop_last(), oracle, slot, i);
        } else {
            assert(!used_up(node, so_far));
        }
    }
}

/// Whether no order of the book is filled beyond its size.
pub open spec fn within_sizes(book: BookView) -> bool {
    forall|place: Place, node: Node| #[trigger]
        book.has(place) && #[trigger] book.queue(place).contains(node)
            ==> node.order.within_size()
}

/// Matches fill no order beyond its size.
pub proof fn lemma_matches_keep_sizes(
    rule: MatchRule,
    before: BookView,
    after: BookView,
    oracle: OraclePriceData,
    slot: u64,
)
    requires
        refilled(rule, before, after, oracle, slot),
        within_sizes(before),
    ensures
        within_sizes(after),
{
    assert forall|place: Place, node: Node| #[trigger]
        after.has(place) && #[trigger] after.queue(place).contains(
            node,
        ) implies node.order.within_size() by {
        assert(before.has(place));
    }
}

/// Bringing a book to a slot puts no node on it that it did not have.
pub proof fn lemma_brought_to_adds_nothing(
    before: BookView,
    slot: u64,
    after: BookView,
    place: Place,
    node: Node,
) -> (source: Place)
    requires
        brought_to(before, slot, after),
        after.has(place),
        after.queue(place).contains(node),
    ensures
        before.has(source),
        before.queue(source).contains(node),
{
    if slot <= before.max_slot {
        place
    } else {
        let old_markets = before.markets(place.market_type);
        let new_markets = after.markets(place.market_type);
        assert(rested_by_some_walk(old_markets, slot, new_markets));
        let walk = choose|walk: Seq<u16>|
            walks(walk, old_markets) && #[trigger] rested(old_markets, walk, slot, new_markets);
        assert(old_markets.contains_key(place.market_index));
        assert(walk.contains(place.market_index));
        let k = choose|k: int| 0 <= k < walk.len() && walk[k] == place.market_index;
        let market = old_markets[walk[k]];
        assert(market_rested(
            market,
            carried_over(new_markets, walk, k),
            slot,
            new_markets[walk[k]],
        ));
        let taking = Place { node_type: NodeType::TakingLimit, ..place };
        match place.node_type {
            NodeType::TakingLimit => {
                let j = lemma_carried_over(
                    old_markets,
                    walk,
                    slot,
                    new_markets,
                    k,
                    place.sub_type,
                    node,
                );
                assert(walk.contains(walk[j]));
                Place { market_index: walk[j], ..taking }
            },
            NodeType::RestingLimit => {
                assert(new_markets[walk[k]].queue(
                    NodeType::RestingLimit,
                    place.sub_type,
                ).contains(node));
                if comes_to_rest(market, place.sub_type, slot)(node) {
                    taking
                } else {
                    place
                }
            },
            _ => place,
        }
    }
}

/// A search for orders to fill fills none beyond its size.
pub proof fn lemma_search_keeps_sizes(
    rule: MatchRule,
    oracle: OraclePriceData,
    slot: u64,
    before: BookView,
    after: BookView,
)
    requires
        brought_and_refilled(rule, oracle, slot, before, after),
        within_sizes(before),
    ensures
        within_sizes(after),
{
    let book = choose|book: BookView| #[trigger]
        brought_to(before, slot, book) && refilled(rule, book, after, oracle, slot);
    assert forall|place: Place, node: Node| #[trigger]
        book.has(place) && #[trigger] book.queue(place).contains(
            node,
        ) implies node.order.within_size() by {
        let source = lemma_brought_to_adds_nothing(before, slot, book, place, node);
    }
    lemma_matches_keep_sizes(rule, book, after, oracle, slot);
}

proof fn lemma_leading_of_sorted(nodes: Seq<Node>, keep: spec_fn(Node) -> bool)
    requires
        forall|i: int, j: int|
            0 <= i < j < nodes.len() && keep(#[trigger] nodes[j]) ==> keep(#[trigger] nodes[i]),
    ensures
        leading(nodes, keep) == nodes.filter(keep),
    decreases nodes.len(),
{
    reveal(Seq::filter);
    if nodes.len() == 0 {
    } else if keep(nodes[0]) {
        let rest = nodes.skip(1);
        assert forall|i: int, j: int|
            0 <= i < j < rest.len() && keep(#[trigger] rest[j]) implies keep(
            #[trigger] rest[i],
        ) by {
            assert(rest[j] == nodes[j + 1]);
            assert(rest[i] == nodes[i + 1]);
        }
        lemma_leading_of_sorted(rest, keep);
        assert(nodes =~= seq![nodes[0]] + rest);
        Seq::filter_distributes_over_add(seq![nodes[0]], rest, keep);
        assert(seq![nodes[0]].drop_last() =~= Seq::<Node>::empty());
        assert(seq![nodes[0]].filter(keep) =~= seq![nodes[0]]) by {
            assert(Seq::<Node>::empty().filter(keep) =~= Seq::<Node>::empty());
        }
    } else {
        lemma_filter_to_nothing(nodes, keep);
    }
}

proof fn lemma_filter_to_nothing(nodes: Seq<Node>, keep: spec_fn(Node) -> bool)
    requires
        forall|i: int| 0 <= i < nodes.len() ==> !keep(#[trigger] nodes[i]),
    ensures
        nodes.filter(keep) == Seq::<Node>::empty(),
    decreases nodes.len(),
{
    reveal(Seq::filter);
    if nodes.len() > 0 {
        lemma_filter_to_nothing(nodes.drop_last(), keep);
    }
}

/// The orders that a price triggers are all of those that wait for it: no order
/// of the trigger lists is missed.
pub proof fn lemma_no_trigger_is_missed(
    book: BookView,
    market_type: MarketType,
    market_index: u16,
    oracle_price: u64,
)
    requires
        book.sound(),
        book.has_market(market_type, market_index),
    ensures
        nodes_triggered(book.market(market_type, market_index), oracle_price) == book.market(
            market_type,
            market_index,
        ).queue(NodeType::Trigger, SubType::Bid).filter(fires_below(oracle_price)) + book.market(
            market_type,
            market_index,
        ).queue(NodeType::Trigger, SubType::Ask).filter(fires_above(oracle_price)),
{
    let above = Place {
        market_type,
        market_index,
        node_type: NodeType::Trigger,
        sub_type: SubType::Bid,
    };
    let below = Place { sub_type: SubType::Ask, ..above };
    assert(book.has(above) && book.has(below));
    lemma_leading_of_sorted(book.queue(above), fires_below(oracle_price));
    lemma_leading_of_sorted(book.queue(below), fires_above(oracle_price));
}

proof fn lemma_count_replaced(
    markets: Map<u16, MarketView>,
    key: u16,
    market: MarketView,
    end: nat,
)
    requires
        end <= 0x1_0000,
    ensures
        count_below(markets.insert(key, market), end) == count_below(markets, end) + if key < end {
            market.size() - if markets.contains_key(key) {
                markets[key].size()
            } else {
                0
            }
        } else {
            0
        },
    decreases end,
{
    if end > 0 {
        lemma_count_replaced(markets, key, market, (end - 1) as nat);
    }
}

/// An inserted order counts once more, unless it takes the place of one with its
/// signature. The orders of the other kind of market stay as many.
pub proof fn lemma_insert_counts_once(
    before: BookView,
    order: Order,
    account: Pubkey,
    slot: u64,
    after: BookView,
    kind: MarketType,
)
    requires
        order_inserted(before, order, account, slot, after),
    ensures
        order_count(after.markets(kind)) == order_count(before.markets(kind)) + if kind
            != order.market_type || (before.has(order_place(order, slot)) && holds(
            before.queue(order_place(order, slot)),
            order_signature(order.order_id, account),
        )) {
            0int
        } else {
            1int
        },
{
    let place = order_place(order, slot);
    let index = order.market_index;
    let ready = before.with_market(order.market_type, index);
    let changed = ready.market(order.market_type, index).with_queue(
        place.node_type,
        place.sub_type,
        after.queue(place),
    );
    if kind == order.market_type {
        assert(after.markets(kind) == ready.markets(kind).insert(index, changed));
        assert(ready.markets(kind).insert(index, changed) =~= before.markets(kind).insert(
            index,
            changed,
        ));
        lemma_count_replaced(before.markets(kind), index, changed, 0x1_0000);
        if !before.has(place) {
            assert(ready.queue(place) == Seq::<Node>::empty());
            assert(!holds(ready.queue(place), order_signature(order.order_id, account)));
        } else {
            assert(ready == before);
        }
    } else {
        assert(after.markets(kind) == before.markets(kind));
    }
}

/// A book without markets has no order.
pub proof fn lemma_empty_book_has_no_order(
    open_orders: Map<Seq<char>, Set<Seq<char>>>,
    initialized: bool,
    order_id: u32,
    account: Pubkey,
)
    ensures
        !is_on(empty_book(open_orders, initialized), order_id, account),
        order_count(empty_book(open_orders, initialized).perp) == 0,
        order_count(empty_book(open_orders, initialized).spot) == 0,
{
    lemma_count_nothing(0x1_0000);
}

/// An order that is put into a book leaves the size of the other kind of market as
/// it is, and makes that of its own kind no smaller and at most one larger.
pub proof fn lemma_insert_moves_one_size(
    before: BookView,
    order: Order,
    account: Pubkey,
    slot: u64,
    after: BookView,
)
    requires
        order_inserted(before, order, account, slot, after),
    ensures
        order.market_type == MarketType::Perp ==> {
            &&& order_count(after.spot) == order_count(before.spot)
            &&& order_count(before.perp) <= order_count(after.perp) <= order_count(before.perp) + 1
        },
        order.market_type == MarketType::Spot ==> {
            &&& order_count(after.perp) == order_count(before.perp)
            &&& order_count(before.spot) <= order_count(after.spot) <= order_count(before.spot) + 1
        },
{
    lemma_insert_counts_once(before, order, account, slot, after, MarketType::Perp);
    lemma_insert_counts_once(before, order, account, slot, after, MarketType::Spot);
}

} // verus!
