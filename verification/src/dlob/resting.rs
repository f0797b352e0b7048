//! The move of limit orders from the taking to the resting lists, once their
//! auctions are over.

use vstd::prelude::*;

use crate::dlob::book::{BookView, Place};
use crate::dlob::exchange::MarketMap;
use crate::dlob::market::{empty_list, Market, MarketView};
use crate::dlob::node::{Node, NodeType, SubType};
use crate::dlob::order_list::ListView;
use crate::dlob::order_queue::{holds, inserted, is_queue, OrderQueue};
use crate::index::walks;
use crate::math::order::{is_resting_limit_order, resting};
use crate::types::MarketType;

verus! {

/// Whether `added` holds of a node with the signature.
pub open spec fn adds(added: spec_fn(Node) -> bool, signature: Seq<char>) -> bool {
    exists|n: Node| #[trigger] added(n) && n.signature() == signature
}

/// Whether `after` is a queue of the nodes of `before` and those that `added`
/// holds of. Where both have a signature the added node is the one that counts.
pub open spec fn joined(
    node_type: NodeType,
    sub_type: SubType,
    before: Seq<Node>,
    added: spec_fn(Node) -> bool,
    after: Seq<Node>,
) -> bool {
    &&& is_queue(node_type, sub_type, after)
    &&& forall|n: Node| #[trigger]
        after.contains(n) <==> added(n) || (before.contains(n) && !adds(added, n.signature()))
}

/// The taking orders of a side that rest in `slot`.
pub open spec fn comes_to_rest(
    market: MarketView,
    sub_type: SubType,
    slot: u64,
) -> spec_fn(Node) -> bool {
    |n: Node|
        market.queue(NodeType::TakingLimit, sub_type).contains(n) && resting(n.order, slot)
}

/// The taking orders of a side that do not rest in `slot`.
pub open spec fn goes_on_taking(
    market: MarketView,
    sub_type: SubType,
    slot: u64,
) -> spec_fn(Node) -> bool {
    |n: Node|
        market.queue(NodeType::TakingLimit, sub_type).contains(n) && !resting(n.order, slot)
}

/// Whether `after` is the market `before` once its orders that rest in `slot`
/// are moved to the resting list. The orders that go on taking join those that
/// were carried over from the markets looked at before.
pub open spec fn market_rested(
    before: MarketView,
    carried: ListView,
    slot: u64,
    after: MarketView,
) -> bool {
    &&& after.floating_limit_orders == before.floating_limit_orders
    &&& after.market_orders == before.market_orders
    &&& after.trigger_orders == before.trigger_orders
    &&& forall|sub_type: SubType|
        joined(
            NodeType::RestingLimit,
            sub_type,
            before.queue(NodeType::RestingLimit, sub_type),
            comes_to_rest(before, sub_type, slot),
            #[trigger] after.queue(NodeType::RestingLimit, sub_type),
        )
    &&& forall|sub_type: SubType|
        joined(
            NodeType::TakingLimit,
            sub_type,
            carried.queue(sub_type),
            goes_on_taking(before, sub_type, slot),
            #[trigger] after.queue(NodeType::TakingLimit, sub_type),
        )
}

/// The taking orders that are carried over to the market at `k` of the walk:
/// all of those that the one before it is left with.
pub open spec fn carried_over(markets: Map<u16, MarketView>, walk: Seq<u16>, k: int) -> ListView {
    if k == 0 {
        empty_list()
    } else {
        markets[walk[k - 1]].taking_limit_orders
    }
}

/// Whether `after` is what the markets `before` become when they are looked at
/// in the order of `walk` and the orders that rest in `slot` are moved.
pub open spec fn rested(
    before: Map<u16, MarketView>,
    walk: Seq<u16>,
    slot: u64,
    after: Map<u16, MarketView>,
) -> bool {
    &&& forall|key: u16| #[trigger] after.contains_key(key) <==> before.contains_key(key)
    &&& forall|k: int|
        0 <= k < walk.len() ==> market_rested(
            before[walk[k]],
            carried_over(after, walk, k),
            slot,
            after[#[trigger] walk[k]],
        )
}

/// Whether there is a walk through the markets `before` that makes them
/// `after`.
pub open spec fn rested_by_some_walk(
    before: Map<u16, MarketView>,
    slot: u64,
    after: Map<u16, MarketView>,
) -> bool {
    exists|walk: Seq<u16>| walks(walk, before) && #[trigger] rested(before, walk, slot, after)
}

/// Whether `after` is the book `before` once it has been brought to `slot`. A
/// book that was brought to that slot or a later one stays as it is.
pub open spec fn brought_to(before: BookView, slot: u64, after: BookView) -> bool {
    if slot <= before.max_slot {
        after == before
    } else {
        &&& rested_by_some_walk(before.perp, slot, after.perp)
        &&& rested_by_some_walk(before.spot, slot, after.spot)
        &&& after.open_orders == before.open_orders
        &&& after.initialized == before.initialized
        &&& after.max_slot == slot
    }
}

proof fn lemma_joined_step(
    node_type: NodeType,
    sub_type: SubType,
    base: Seq<Node>,
    added: spec_fn(Node) -> bool,
    before: Seq<Node>,
    node: Node,
    after: Seq<Node>,
    added_after: spec_fn(Node) -> bool,
)
    requires
        joined(node_type, sub_type, base, added, before),
        inserted(node_type, sub_type, before, node, after),
        !adds(added, node.signature()),
        forall|n: Node| #[trigger] added_after(n) <==> added(n) || n == node,
    ensures
        joined(node_type, sub_type, base, added_after, after),
{
    assert forall|n: Node| #[trigger] after.contains(n) <==> added_after(n) || (base.contains(n)
        && !adds(added_after, n.signature())) by {
        if added(n) {
            assert(adds(added, n.signature()));
        }
        if adds(added, n.signature()) {
            let m = choose|m: Node| #[trigger] added(m) && m.signature() == n.signature();
            assert(added_after(m));
        }
        if n.signature() == node.signature() {
            assert(added_after(node));
            assert(adds(added_after, n.signature()));
        }
        if adds(added_after, n.signature()) {
            let m = choose|m: Node| #[trigger] added_after(m) && m.signature() == n.signature();
            assert(added(m) || m == node);
        }
        assert(before.contains(n) <==> added(n) || (base.contains(n) && !adds(
            added,
            n.signature(),
        )));
    }
}

proof fn lemma_joined_same(
    node_type: NodeType,
    sub_type: SubType,
    base: Seq<Node>,
    added: spec_fn(Node) -> bool,
    other: spec_fn(Node) -> bool,
    after: Seq<Node>,
)
    requires
        joined(node_type, sub_type, base, added, after),
        forall|n: Node| #[trigger] added(n) <==> other(n),
    ensures
        joined(node_type, sub_type, base, other, after),
{
    assert forall|s: Seq<char>| #[trigger] adds(added, s) <==> adds(other, s) by {
        if adds(added, s) {
            let n = choose|n: Node| #[trigger] added(n) && n.signature() == s;
            assert(other(n));
        }
        if adds(other, s) {
            let n = choose|n: Node| #[trigger] other(n) && n.signature() == s;
            assert(added(n));
        }
    }
    assert forall|n: Node| #[trigger] after.contains(n) <==> other(n) || (base.contains(n)
        && !adds(other, n.signature())) by {
        assert(added(n) <==> other(n));
    }
}

/// Whether the signature is one of the first `count`.
spec fn looked_at(signatures: Seq<String>, count: int, signature: Seq<char>) -> bool {
    exists|j: int| 0 <= j < count && (#[trigger] signatures[j])@ == signature
}

/// Moves the nodes of `taking` that rest in `slot` into `resting_queue`, and
/// puts the others into `still_taking`.
fn rest_queue(
    taking: &OrderQueue,
    resting_queue: &mut OrderQueue,
    still_taking: &mut OrderQueue,
    slot: u64,
)
    requires
        taking.wf(),
        old(resting_queue).wf(),
        old(still_taking).wf(),
    ensures
        final(resting_queue).wf(),
        final(resting_queue).list_type() == old(resting_queue).list_type(),
        final(resting_queue).side() == old(resting_queue).side(),
        joined(
            old(resting_queue).list_type(),
            old(resting_queue).side(),
            old(resting_queue)@,
            |n: Node| taking@.contains(n) && resting(n.order, slot),
            final(resting_queue)@,
        ),
        final(still_taking).wf(),
        final(still_taking).list_type() == old(still_taking).list_type(),
        final(still_taking).side() == old(still_taking).side(),
        joined(
            old(still_taking).list_type(),
            old(still_taking).side(),
            old(still_taking)@,
            |n: Node| taking@.contains(n) && !resting(n.order, slot),
            final(still_taking)@,
        ),
{
    let signatures = taking.signatures();
    let mut i: usize = 0;
    let ghost rests = |n: Node| taking@.contains(n) && resting(n.order, slot);
    let ghost takes = |n: Node| taking@.contains(n) && !resting(n.order, slot);
    let ghost rested_so_far = |k: int| |n: Node| rests(n) && looked_at(signatures@, k, n.signature());
    let ghost taking_so_far = |k: int| |n: Node| takes(n) && looked_at(signatures@, k, n.signature());
    proof {
        taking.lemma_is_queue();
        old(resting_queue).lemma_is_queue();
        old(still_taking).lemma_is_queue();
    }
    while i < signatures.len()
        invariant
            i <= signatures@.len(),
            taking.wf(),
            is_queue(taking.list_type(), taking.side(), taking@),
            forall|j: int| 0 <= j < signatures@.len() ==> holds(taking@, #[trigger] signatures@[j]@),
            forall|j: int, k: int|
                0 <= j < k < signatures@.len() ==> (#[trigger] signatures@[j])@ != (
                #[trigger] signatures@[k])@,
            rests == (|n: Node| taking@.contains(n) && resting(n.order, slot)),
            takes == (|n: Node| taking@.contains(n) && !resting(n.order, slot)),
            rested_so_far == (|k: int|
                |n: Node| rests(n) && looked_at(signatures@, k, n.signature())),
            taking_so_far == (|k: int|
                |n: Node| takes(n) && looked_at(signatures@, k, n.signature())),
            resting_queue.wf(),
            resting_queue.list_type() == old(resting_queue).list_type(),
            resting_queue.side() == old(resting_queue).side(),
            joined(
                old(resting_queue).list_type(),
                old(resting_queue).side(),
                old(resting_queue)@,
                rested_so_far(i as int),
                resting_queue@,
            ),
            still_taking.wf(),
            still_taking.list_type() == old(still_taking).list_type(),
            still_taking.side() == old(still_taking).side(),
            joined(
                old(still_taking).list_type(),
                old(still_taking).side(),
                old(still_taking)@,
                taking_so_far(i as int),
                still_taking@,
            ),
        decreases signatures@.len() - i,
    {
        let ghost k = i as int;
        let ghost signature = signatures@[k]@;
        assert(holds(taking@, signature));
        assert(!looked_at(signatures@, k, signature));
        assert forall|s: Seq<char>| #[trigger]
            looked_at(signatures@, k + 1, s) <==> looked_at(signatures@, k, s) || s
            == signature by {
            if looked_at(signatures@, k, s) {
                let j = choose|j: int| 0 <= j < k && (#[trigger] signatures@[j])@ == s;
                assert(signatures@[j]@ == s);
            }
            if s == signature {
                assert(signatures@[k]@ == s);
            }
        }
        if let Some(found) = taking.get(signatures[i].as_str()) {
            let node: Node = *found;
            assert forall|n: Node| taking@.contains(n) && n.signature() == signature implies n
                == node by {
                let a = choose|a: int| 0 <= a < taking@.len() && taking@[a] == n;
                let b = choose|b: int| 0 <= b < taking@.len() && taking@[b] == node;
                if a != b {
                    assert(taking@[a].signature() != taking@[b].signature());
                }
            }
            let ghost rested_before = resting_queue@;
            let ghost taking_before = still_taking@;
            if is_resting_limit_order(&node.order, slot) {
                resting_queue.insert(node);
                proof {
                    lemma_joined_step(
                        old(resting_queue).list_type(),
                        old(resting_queue).side(),
                        old(resting_queue)@,
                        rested_so_far(k),
                        rested_before,
                        node,
                        resting_queue@,
                        rested_so_far(k + 1),
                    );
                    lemma_joined_same(
                        old(still_taking).list_type(),
                        old(still_taking).side(),
                        old(still_taking)@,
                        taking_so_far(k),
                        taking_so_far(k + 1),
                        still_taking@,
                    );
                }
            } else {
                still_taking.insert(node);
                proof {
                    lemma_joined_step(
                        old(still_taking).list_type(),
                        old(still_taking).side(),
                        old(still_taking)@,
                        taking_so_far(k),
                        taking_before,
                        node,
                        still_taking@,
                        taking_so_far(k + 1),
                    );
                    lemma_joined_same(
                        old(resting_queue).list_type(),
                        old(resting_queue).side(),
                        old(resting_queue)@,
                        rested_so_far(k),
                        rested_so_far(k + 1),
                        resting_queue@,
                    );
                }
            }
        }
        i += 1;
    }
    proof {
        let count = signatures@.len() as int;
        assert forall|n: Node| #[trigger] rested_so_far(count)(n) <==> rests(n) by {
            if rests(n) {
                assert(taking@.contains(n));
                assert(looked_at(signatures@, count, n.signature()));
            }
        }
        assert forall|n: Node| #[trigger] taking_so_far(count)(n) <==> takes(n) by {
            if takes(n) {
                assert(taking@.contains(n));
                assert(looked_at(signatures@, count, n.signature()));
            }
        }
        lemma_joined_same(
            old(resting_queue).list_type(),
            old(resting_queue).side(),
            old(resting_queue)@,
            rested_so_far(count),
            rests,
            resting_queue@,
        );
        lemma_joined_same(
            old(still_taking).list_type(),
            old(still_taking).side(),
            old(still_taking)@,
            taking_so_far(count),
            takes,
            still_taking@,
        );
    }
}

/// Moves the orders of a market that rest in `slot` to its resting list. Those
/// that go on taking join the ones carried over in `new_taking_bids` and
/// `new_taking_asks`, and the market is left with all of these.
pub fn rest_market(
    market: &mut Market,
    new_taking_bids: &mut OrderQueue,
    new_taking_asks: &mut OrderQueue,
    slot: u64,
)
    requires
        old(market).wf(),
        old(new_taking_bids).wf(),
        old(new_taking_bids).list_type() == NodeType::TakingLimit,
        old(new_taking_bids).side() == SubType::Bid,
        old(new_taking_asks).wf(),
        old(new_taking_asks).list_type() == NodeType::TakingLimit,
        old(new_taking_asks).side() == SubType::Ask,
    ensures
        final(market).wf(),
        final(new_taking_bids).wf(),
        final(new_taking_bids).list_type() == NodeType::TakingLimit,
        final(new_taking_bids).side() == SubType::Bid,
        final(new_taking_asks).wf(),
        final(new_taking_asks).list_type() == NodeType::TakingLimit,
        final(new_taking_asks).side() == SubType::Ask,
        market_rested(
            old(market)@,
            ListView { bids: old(new_taking_bids)@, asks: old(new_taking_asks)@ },
            slot,
            final(market)@,
        ),
        final(market)@.taking_limit_orders.bids == final(new_taking_bids)@,
        final(market)@.taking_limit_orders.asks == final(new_taking_asks)@,
{
    rest_queue(
        &market.taking_limit_orders.bids,
        &mut market.resting_limit_orders.bids,
        new_taking_bids,
        slot,
    );
    rest_queue(
        &market.taking_limit_orders.asks,
        &mut market.resting_limit_orders.asks,
        new_taking_asks,
        slot,
    );
    market.taking_limit_orders.bids = new_taking_bids.clone();
    market.taking_limit_orders.asks = new_taking_asks.clone();
    proof {
        let before = old(market)@;
        let after = market@;
        let carried = ListView { bids: old(new_taking_bids)@, asks: old(new_taking_asks)@ };
        assert forall|sub_type: SubType| joined(
            NodeType::RestingLimit,
            sub_type,
            before.queue(NodeType::RestingLimit, sub_type),
            comes_to_rest(before, sub_type, slot),
            #[trigger] after.queue(NodeType::RestingLimit, sub_type),
        ) by {
            match sub_type {
                SubType::Bid => {
                    assert(before.queue(NodeType::TakingLimit, sub_type) == old(
                        market,
                    ).taking_limit_orders.bids@);
                },
                SubType::Ask => {
                    assert(before.queue(NodeType::TakingLimit, sub_type) == old(
                        market,
                    ).taking_limit_orders.asks@);
                },
            }
        }
        assert forall|sub_type: SubType| joined(
            NodeType::TakingLimit,
            sub_type,
            carried.queue(sub_type),
            goes_on_taking(before, sub_type, slot),
            #[trigger] after.queue(NodeType::TakingLimit, sub_type),
        ) by {
            match sub_type {
                SubType::Bid => {
                    assert(before.queue(NodeType::TakingLimit, sub_type) == old(
                        market,
                    ).taking_limit_orders.bids@);
                },
                SubType::Ask => {
                    assert(before.queue(NodeType::TakingLimit, sub_type) == old(
                        market,
                    ).taking_limit_orders.asks@);
                },
            }
        }
    }
}

/// Looks at the markets in the order of `walk` and moves the orders that rest in
/// `slot`. The orders that go on taking are carried from market to market.
pub fn rest_markets(markets: &mut MarketMap, slot: u64, walk: &Vec<u16>)
    requires
        old(markets).wf(),
        walks(walk@, old(markets)@),
    ensures
        final(markets).wf(),
        rested(old(markets)@, walk@, slot, final(markets)@),
{
    let mut new_taking_bids = OrderQueue::new(NodeType::TakingLimit, SubType::Bid);
    let mut new_taking_asks = OrderQueue::new(NodeType::TakingLimit, SubType::Ask);
    let mut i: usize = 0;
    while i < walk.len()
        invariant
            i <= walk@.len(),
            walks(walk@, old(markets)@),
            markets.wf(),
            forall|key: u16| #[trigger]
                markets@.contains_key(key) <==> old(markets)@.contains_key(key),
            forall|k: int|
                0 <= k < i ==> market_rested(
                    old(markets)@[walk@[k]],
                    carried_over(markets@, walk@, k),
                    slot,
                    markets@[#[trigger] walk@[k]],
                ),
            forall|k: int|
                i <= k < walk@.len() ==> markets@[#[trigger] walk@[k]] == old(markets)@[walk@[k]],
            new_taking_bids.wf(),
            new_taking_bids.list_type() == NodeType::TakingLimit,
            new_taking_bids.side() == SubType::Bid,
            new_taking_asks.wf(),
            new_taking_asks.list_type() == NodeType::TakingLimit,
            new_taking_asks.side() == SubType::Ask,
            carried_over(markets@, walk@, i as int) == (ListView {
                bids: new_taking_bids@,
                asks: new_taking_asks@,
            }),
        decreases walk@.len() - i,
    {
        let ghost before = markets@;
        let key: u16 = walk[i];
        assert(walk@.contains(key));
        let market = markets.get_mut(key);
        rest_market(market, &mut new_taking_bids, &mut new_taking_asks, slot);
        proof {
            assert(markets@ =~= before.insert(key, markets@[key]));
            assert forall|k: int| 0 <= k < i + 1 implies market_rested(
                old(markets)@[walk@[k]],
                carried_over(markets@, walk@, k),
                slot,
                markets@[#[trigger] walk@[k]],
            ) by {
                assert(k < i ==> walk@[k] != key);
                assert(k > 0 ==> walk@[k - 1] != key);
                assert(carried_over(markets@, walk@, k) == carried_over(before, walk@, k));
            }
            assert forall|k: int| i + 1 <= k < walk@.len() implies markets@[#[trigger] walk@[k]]
                == old(markets)@[walk@[k]] by {
                assert(walk@[k] != key);
            }
            assert(markets@[key].taking_limit_orders =~= ListView {
                bids: new_taking_bids@,
                asks: new_taking_asks@,
            });
        }
        i += 1;
    }
}

/// An order that goes on taking was among the taking orders of a market that
/// was looked at.
pub proof fn lemma_carried_over(
    before: Map<u16, MarketView>,
    walk: Seq<u16>,
    slot: u64,
    after: Map<u16, MarketView>,
    k: int,
    sub_type: SubType,
    node: Node,
) -> (j: int)
    requires
        rested(before, walk, slot, after),
        0 <= k < walk.len(),
        after[walk[k]].queue(NodeType::TakingLimit, sub_type).contains(node),
    ensures
        0 <= j <= k,
        before[walk[j]].queue(NodeType::TakingLimit, sub_type).contains(node),
        !resting(node.order, slot),
    decreases k,
{
    let carried = carried_over(after, walk, k);
    assert(market_rested(before[walk[k]], carried, slot, after[walk[k]]));
    if goes_on_taking(before[walk[k]], sub_type, slot)(node) {
        k
    } else {
        assert(carried.queue(sub_type).contains(node));
        assert(carried.queue(sub_type) == after[walk[k - 1]].queue(
            NodeType::TakingLimit,
            sub_type,
        ));
        lemma_carried_over(before, walk, slot, after, k - 1, sub_type, node)
    }
}

/// Bringing a sound book to a slot leaves it sound, with the same markets.
pub proof fn lemma_brought_to_is_sound(before: BookView, slot: u64, after: BookView)
    requires
        before.sound(),
        brought_to(before, slot, after),
    ensures
        after.sound(),
        forall|market_type: MarketType, market_index: u16| #[trigger]
            after.has_market(market_type, market_index) == before.has_market(
                market_type,
                market_index,
            ),
        slot <= after.max_slot,
{
    if slot > before.max_slot {
        assert forall|market_type: MarketType, market_index: u16| #[trigger]
            after.has_market(market_type, market_index) == before.has_market(
            market_type,
            market_index,
        ) by {
            assert(rested_by_some_walk(
                before.markets(market_type),
                slot,
                after.markets(market_type),
            ));
        }
        assert forall|place: Place| #[trigger] after.has(place) implies is_queue(
            place.node_type,
            place.sub_type,
            after.queue(place),
        ) && forall|node: Node| #[trigger]
            after.queue(place).contains(node) ==> after.admits(place, node) by {
            lemma_brought_to_place(before, slot, after, place);
        }
    }
}

proof fn lemma_brought_to_place(before: BookView, slot: u64, after: BookView, place: Place)
    requires
        before.sound(),
        slot > before.max_slot,
        brought_to(before, slot, after),
        after.has(place),
        forall|market_type: MarketType, market_index: u16| #[trigger]
            after.has_market(market_type, market_index) == before.has_market(
                market_type,
                market_index,
            ),
    ensures
        is_queue(place.node_type, place.sub_type, after.queue(place)),
        forall|node: Node| #[trigger]
            after.queue(place).contains(node) ==> after.admits(place, node),
{
    let old_markets = before.markets(place.market_type);
    let new_markets = after.markets(place.market_type);
    assert(before.has(place));
    assert(rested_by_some_walk(old_markets, slot, new_markets));
    let walk = choose|walk: Seq<u16>|
        walks(walk, old_markets) && #[trigger] rested(old_markets, walk, slot, new_markets);
    assert(walk.contains(place.market_index));
    let k = choose|k: int| 0 <= k < walk.len() && walk[k] == place.market_index;
    let carried = carried_over(new_markets, walk, k);
    assert(market_rested(old_markets[walk[k]], carried, slot, new_markets[walk[k]]));
    assert(is_queue(place.node_type, place.sub_type, before.queue(place)));
    let taking = Place { node_type: NodeType::TakingLimit, ..place };
    match place.node_type {
        NodeType::RestingLimit => {
            assert(after.queue(place) == new_markets[walk[k]].queue(
                NodeType::RestingLimit,
                place.sub_type,
            ));
            assert forall|node: Node| #[trigger] after.queue(place).contains(node) implies after.admits(
                place,
                node,
            ) by {
                if comes_to_rest(old_markets[walk[k]], place.sub_type, slot)(node) {
                    assert(before.has(taking) && before.queue(taking).contains(node));
                } else {
                    assert(before.has(place) && before.queue(place).contains(node));
                }
            }
        },
        NodeType::TakingLimit => {
            assert(after.queue(place) == new_markets[walk[k]].queue(
                NodeType::TakingLimit,
                place.sub_type,
            ));
            assert forall|node: Node| #[trigger] after.queue(place).contains(node) implies after.admits(
                place,
                node,
            ) by {
                let j = lemma_carried_over(
                    old_markets,
                    walk,
                    slot,
                    new_markets,
                    k,
                    place.sub_type,
                    node,
                );
                assert(walk.contains(walk[j]));
                let source = Place { market_index: walk[j], ..taking };
                assert(before.has(source) && before.queue(source).contains(node));
            }
        },
        _ => {
            assert(after.queue(place) == before.queue(place));
            assert forall|node: Node| #[trigger] after.queue(place).contains(node) implies after.admits(
                place,
                node,
            ) by {
                assert(before.has(place) && before.queue(place).contains(node));
            }
        },
    }
}

} // verus!
