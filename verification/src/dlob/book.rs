//! The order book as mathematics: what it holds, where an order belongs in it,
//! and how inserting and updating an order change it.

use vstd::prelude::*;

use crate::dlob::market::{direction_side, empty_market, order_list_type, order_side, MarketView};
use crate::dlob::node::{Node, NodeType, SubType};
use crate::dlob::order_queue::{holds, inserted, is_queue, replaced};
use crate::pubkey::{text_spells, Pubkey};
use crate::types::{MarketType, Order};

verus! {

/// What the order book holds.
#[verifier::ext_equal]
pub struct BookView {
    pub perp: Map<u16, MarketView>,
    pub spot: Map<u16, MarketView>,
    /// The open orders of each market kind.
    pub open_orders: Map<Seq<char>, Set<Seq<char>>>,
    /// Whether the book has been set up since it was last cleared.
    pub initialized: bool,
    /// The last slot for which resting orders were looked for.
    pub max_slot: u64,
}

/// A queue of the book: a market, a list of it, and a side of that.
pub struct Place {
    pub market_type: MarketType,
    pub market_index: u16,
    pub node_type: NodeType,
    pub sub_type: SubType,
}

/// The queue in which an order belongs in `slot`.
pub open spec fn order_place(order: Order, slot: u64) -> Place {
    Place {
        market_type: order.market_type,
        market_index: order.market_index,
        node_type: order_list_type(order, slot),
        sub_type: order_side(order),
    }
}

impl BookView {
    /// The markets of a kind.
    pub open spec fn markets(self, market_type: MarketType) -> Map<u16, MarketView> {
        match market_type {
            MarketType::Perp => self.perp,
            MarketType::Spot => self.spot,
        }
    }

    /// The book with the markets of a kind set to `markets`.
    pub open spec fn with_markets(
        self,
        market_type: MarketType,
        markets: Map<u16, MarketView>,
    ) -> BookView {
        match market_type {
            MarketType::Perp => BookView { perp: markets, ..self },
            MarketType::Spot => BookView { spot: markets, ..self },
        }
    }

    /// Whether there is a market with that kind and index.
    pub open spec fn has_market(self, market_type: MarketType, market_index: u16) -> bool {
        self.markets(market_type).contains_key(market_index)
    }

    /// The market with that kind and index.
    pub open spec fn market(self, market_type: MarketType, market_index: u16) -> MarketView {
        self.markets(market_type)[market_index]
    }

    /// Whether there is a queue at `place`.
    pub open spec fn has(self, place: Place) -> bool {
        self.has_market(place.market_type, place.market_index)
    }

    /// The queue at `place`.
    pub open spec fn queue(self, place: Place) -> Seq<Node> {
        self.market(place.market_type, place.market_index).queue(place.node_type, place.sub_type)
    }

    /// The book with the queue at `place` set to `nodes`.
    pub open spec fn with_queue(self, place: Place, nodes: Seq<Node>) -> BookView {
        self.with_markets(
            place.market_type,
            self.markets(place.market_type).insert(
                place.market_index,
                self.market(place.market_type, place.market_index).with_queue(
                    place.node_type,
                    place.sub_type,
                    nodes,
                ),
            ),
        )
    }

    /// The book with a market without orders, unless the market is there.
    pub open spec fn with_market(self, market_type: MarketType, market_index: u16) -> BookView {
        if self.has_market(market_type, market_index) {
            self
        } else {
            self.with_markets(
                market_type,
                self.markets(market_type).insert(market_index, empty_market()),
            )
        }
    }

    /// Whether a node may stand at `place`: the market in which its order
    /// belongs is of the same kind and is there, outside the trigger lists longs
    /// are bids and shorts are asks, and the account is one whose text spells it.
    pub open spec fn admits(self, place: Place, node: Node) -> bool {
        &&& text_spells(node.user_account)
        &&& node.order.market_type == place.market_type
        &&& self.has_market(node.order.market_type, node.order.market_index)
        &&& place.node_type != NodeType::Trigger ==> direction_side(node.order.direction)
            == place.sub_type
    }

    /// Whether every queue is sorted, names no order twice, and holds only
    /// nodes that may stand in it.
    pub open spec fn sound(self) -> bool {
        &&& forall|place: Place| #[trigger]
            self.has(place) ==> is_queue(place.node_type, place.sub_type, self.queue(place))
        &&& forall|place: Place, node: Node| #[trigger]
            self.has(place) && #[trigger] self.queue(place).contains(node) ==> self.admits(
                place,
                node,
            )
    }
}

/// A book without markets.
pub open spec fn empty_book(
    open_orders: Map<Seq<char>, Set<Seq<char>>>,
    initialized: bool,
) -> BookView {
    BookView { perp: Map::empty(), spot: Map::empty(), open_orders, initialized, max_slot: 0 }
}

/// Whether `after` is the book `before` once an order is put where it belongs
/// in `slot`. Its market is added where it is missing.
pub open spec fn order_inserted(
    before: BookView,
    order: Order,
    user_account: Pubkey,
    slot: u64,
    after: BookView,
) -> bool {
    let place = order_place(order, slot);
    let ready = before.with_market(order.market_type, order.market_index);
    &&& after == ready.with_queue(place, after.queue(place))
    &&& inserted(
        place.node_type,
        place.sub_type,
        ready.queue(place),
        Node { order, user_account },
        after.queue(place),
    )
}

/// Whether `after` is the book `before` once an order is written over the one
/// with its signature, in the queue in which it belongs in `slot`.
pub open spec fn order_updated(
    before: BookView,
    order: Order,
    user_account: Pubkey,
    slot: u64,
    after: BookView,
) -> bool {
    let place = order_place(order, slot);
    &&& after == before.with_queue(place, after.queue(place))
    &&& replaced(
        place.node_type,
        place.sub_type,
        before.queue(place),
        Node { order, user_account },
        after.queue(place),
    )
}

/// Setting one queue leaves the others as they are.
pub proof fn lemma_with_queue(book: BookView, place: Place, nodes: Seq<Node>)
    requires
        book.has(place),
    ensures
        forall|p: Place| #[trigger] book.with_queue(place, nodes).has(p) == book.has(p),
        forall|p: Place| #[trigger]
            book.with_queue(place, nodes).queue(p) == if p == place {
                nodes
            } else {
                book.queue(p)
            },
{
    let after = book.with_queue(place, nodes);
    assert forall|p: Place| #[trigger] after.has(p) == book.has(p) by {}
    assert forall|p: Place| #[trigger] after.queue(p) == if p == place {
        nodes
    } else {
        book.queue(p)
    } by {
        if p.market_type == place.market_type && p.market_index == place.market_index {
            let before = book.market(place.market_type, place.market_index);
            let changed = before.with_queue(place.node_type, place.sub_type, nodes);
            assert(after.market(p.market_type, p.market_index) == changed);
        } else {
            assert(after.market(p.market_type, p.market_index) == book.market(
                p.market_type,
                p.market_index,
            ));
        }
    }
}

/// Adding a market leaves the queues of the others as they are.
pub proof fn lemma_with_market(book: BookView, market_type: MarketType, market_index: u16)
    ensures
        book.with_market(market_type, market_index).has_market(market_type, market_index),
        forall|p: Place| #[trigger]
            book.has(p) ==> book.with_market(market_type, market_index).has(p),
        forall|p: Place| #[trigger]
            book.with_market(market_type, market_index).queue(p) == if book.has(p) || p.market_type
                != market_type || p.market_index != market_index {
                book.queue(p)
            } else {
                Seq::empty()
            },
        book.sound() ==> book.with_market(market_type, market_index).sound(),
{
    let after = book.with_market(market_type, market_index);
    assert forall|p: Place| #[trigger] after.queue(p) == if book.has(p) || p.market_type
        != market_type || p.market_index != market_index {
        book.queue(p)
    } else {
        Seq::empty()
    } by {}
    if book.sound() {
        assert forall|place: Place| #[trigger] after.has(place) implies is_queue(
            place.node_type,
            place.sub_type,
            after.queue(place),
        ) by {
            if book.has(place) {
                assert(after.queue(place) == book.queue(place));
            }
        }
        assert forall|place: Place, node: Node| #[trigger]
            after.has(place) && #[trigger] after.queue(place).contains(node) implies after.admits(
            place,
            node,
        ) by {
            if book.has(place) {
                assert(book.queue(place).contains(node));
            }
        }
    }
}

/// A sound book stays sound when a queue is set to one whose nodes may stand
/// there.
pub proof fn lemma_sound_with_queue(book: BookView, place: Place, nodes: Seq<Node>)
    requires
        book.sound(),
        book.has(place),
        is_queue(place.node_type, place.sub_type, nodes),
        forall|n: Node| #[trigger] nodes.contains(n) ==> book.admits(place, n),
    ensures
        book.with_queue(place, nodes).sound(),
{
    let after = book.with_queue(place, nodes);
    lemma_with_queue(book, place, nodes);
    assert forall|p: Place| #[trigger] after.has(p) implies is_queue(
        p.node_type,
        p.sub_type,
        after.queue(p),
    ) by {
        assert(book.has(p));
        assert(after.queue(p) == if p == place {
            nodes
        } else {
            book.queue(p)
        });
    }
    assert forall|p: Place, n: Node| #[trigger]
        after.has(p) && #[trigger] after.queue(p).contains(n) implies after.admits(p, n) by {
        assert(book.has(p));
        if p != place {
            assert(book.queue(p).contains(n));
        }
        assert(book.admits(p, n));
        let home = Place {
            market_type: n.order.market_type,
            market_index: n.order.market_index,
            ..place
        };
        assert(book.has(home));
        assert(after.has(home));
    }
}

/// Whether a book is sound hangs on its markets alone.
pub proof fn lemma_sound_by_markets(book: BookView, other: BookView)
    requires
        book.sound(),
        other.perp == book.perp,
        other.spot == book.spot,
    ensures
        other.sound(),
{
    assert forall|place: Place| #[trigger] other.has(place) implies is_queue(
        place.node_type,
        place.sub_type,
        other.queue(place),
    ) by {
        assert(book.has(place));
        assert(other.queue(place) == book.queue(place));
    }
    assert forall|place: Place, node: Node| #[trigger]
        other.has(place) && #[trigger] other.queue(place).contains(node) implies other.admits(
        place,
        node,
    ) by {
        assert(book.has(place) && book.queue(place).contains(node));
        assert(book.admits(place, node));
    }
}

/// Putting an order into a sound book leaves it sound.
pub proof fn lemma_order_inserted_is_sound(
    before: BookView,
    order: Order,
    user_account: Pubkey,
    slot: u64,
    after: BookView,
)
    requires
        before.sound(),
        text_spells(user_account),
        order_inserted(before, order, user_account, slot, after),
    ensures
        after.sound(),
{
    let place = order_place(order, slot);
    let ready = before.with_market(order.market_type, order.market_index);
    let nodes = after.queue(place);
    lemma_with_market(before, order.market_type, order.market_index);
    assert(ready.has(place));
    assert forall|n: Node| #[trigger] nodes.contains(n) implies ready.admits(place, n) by {
        if n != (Node { order, user_account }) {
            assert(ready.queue(place).contains(n));
        }
    }
    lemma_sound_with_queue(ready, place, nodes);
}

/// Updating an order of a sound book leaves it sound.
pub proof fn lemma_order_updated_is_sound(
    before: BookView,
    order: Order,
    user_account: Pubkey,
    slot: u64,
    after: BookView,
)
    requires
        before.sound(),
        before.has_market(order.market_type, order.market_index),
        text_spells(user_account),
        order_updated(before, order, user_account, slot, after),
    ensures
        after.sound(),
{
    let place = order_place(order, slot);
    let nodes = after.queue(place);
    assert(before.has(place));
    assert forall|n: Node| #[trigger] nodes.contains(n) implies before.admits(place, n) by {
        if n != (Node { order, user_account }) {
            assert(before.queue(place).contains(n));
        }
    }
    lemma_sound_with_queue(before, place, nodes);
}

} // verus!
