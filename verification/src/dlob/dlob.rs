//! The decentralised limit order book: orders by market, list and side.

use vstd::prelude::*;

use std::sync::atomic::AtomicU64;
use std::sync::Arc;

use crate::dlob::book::{
    empty_book, lemma_order_inserted_is_sound, lemma_order_updated_is_sound,
    lemma_sound_by_markets, lemma_with_market, lemma_with_queue, order_inserted, order_place,
    order_updated, BookView, Place,
};
use crate::dlob::users::{
    built_from, gives, is_address, is_on, keys_are_addresses, lemma_offered_is_on, offered,
    on_kind, orders_inserted, used_order_inserted, user_inserted, users_inserted,
    users_inserted_by_some_walk,
};
use crate::dlob::exchange::{order_count, Exchange};
use crate::dlob::market::get_node_subtype_and_type;
use crate::dlob::node::{
    create_node, get_order_signature, order_signature, Node, NodeType, SubType,
};
use crate::dlob::open_orders::OpenOrders;
use crate::dlob::order_queue::holds;
use crate::dlob::resting::{
    brought_to, lemma_brought_to_is_sound, rest_markets, rested, rested_by_some_walk,
};
use crate::dlob::quotes::{
    at_most_one_quote, lemma_at_most_one_quote, lemma_quotes_are_quoted, price_rank, quotes,
    quotes_sortable, slot_rank, takers, will_quote, Side,
};
use crate::dlob::sorting::{lemma_rank_sorted, rank_sorted, sort_by_rank};
use crate::dlob::watermark::Watermark;
use crate::index::{spells, walks};
use crate::pubkey::{pubkey_of_text, text_spells, Pubkey};
use crate::types::{MarketType, OraclePriceData, Order, OrderStatus};
use crate::usermap::Usermap;

verus! {

/// The open orders of a book that was just made: none of either kind.
pub open spec fn no_open_orders() -> Map<Seq<char>, Set<Seq<char>>> {
    Map::<Seq<char>, Set<Seq<char>>>::empty().insert("perp"@, Set::empty()).insert(
        "spot"@,
        Set::empty(),
    )
}

/// The decentralised limit order book.
pub struct DLOB {
    pub(crate) exchange: Exchange,
    pub(crate) open_orders: OpenOrders,
    pub(crate) initialized: bool,
    pub(crate) max_slot_for_resting_limit_orders: Watermark,
}

impl View for DLOB {
    type V = BookView;

    closed spec fn view(&self) -> BookView {
        BookView {
            perp: self.exchange.perp@,
            spot: self.exchange.spot@,
            open_orders: self.open_orders@,
            initialized: self.initialized,
            max_slot: self.max_slot_for_resting_limit_orders.slot(),
        }
    }
}

impl DLOB {
    /// Whether the book is stored well and is sound.
    pub closed spec fn wf(&self) -> bool {
        &&& self.exchange.wf()
        &&& self.open_orders.wf()
        &&& self@.sound()
    }

    /// The cell that the book and its copies have their watermark in, where it has
    /// copies.
    pub closed spec fn cell(&self) -> Option<Arc<AtomicU64>> {
        self.max_slot_for_resting_limit_orders.cell()
    }

    /// Whether the book has a copy, with which it then has its watermark in common.
    pub open spec fn shared(&self) -> bool {
        self.cell() is Some
    }

    /// Whether `book` is what the book can be found to be when its watermark is
    /// looked at: that of a book with copies can have been set by any of them.
    pub open spec fn reads(&self, book: BookView) -> bool {
        &&& book == (BookView { max_slot: book.max_slot, ..self@ })
        &&& !self.shared() ==> book == self@
    }

    /// A well-formed book is sound.
    pub proof fn lemma_sound(&self)
        requires
            self.wf(),
        ensures
            self@.sound(),
    {
    }

    /// Makes an empty book.
    pub fn new() -> (dlob: DLOB)
        ensures
            dlob.wf(),
            dlob@ == empty_book(no_open_orders(), true),
            !dlob.shared(),
    {
        let mut open_orders = OpenOrders::new();
        open_orders.insert(String::from_str("perp"));
        open_orders.insert(String::from_str("spot"));

        DLOB {
            exchange: Exchange::new(),
            open_orders,
            initialized: true,
            max_slot_for_resting_limit_orders: Watermark::new(),
        }
    }

    /// Gives the markets of the book, to read.
    pub fn exchange(&self) -> (exchange: &Exchange)
        requires
            self.wf(),
        ensures
            exchange.wf(),
            exchange.perp@ == self@.perp,
            exchange.spot@ == self@.spot,
    {
        &self.exchange
    }

    /// Counts the orders of the perp markets and those of the spot markets.
    pub fn size(&self) -> (size: (usize, usize))
        requires
            self.wf(),
            order_count(self@.perp) <= usize::MAX,
            order_count(self@.spot) <= usize::MAX,
        ensures
            size.0 == order_count(self@.perp),
            size.1 == order_count(self@.spot),
    {
        (self.exchange.perp_size(), self.exchange.spot_size())
    }

    /// Counts the orders of the perp markets and those of the spot markets, or gives
    /// nothing where either are more than can be counted.
    pub fn checked_size(&self) -> (size: Option<(usize, usize)>)
        requires
            self.wf(),
        ensures
            size is Some == (order_count(self@.perp) <= usize::MAX && order_count(self@.spot)
                <= usize::MAX),
            size matches Some(n) ==> n.0 == order_count(self@.perp) && n.1 == order_count(
                self@.spot,
            ),
    {
        match (self.exchange.perp.checked_size(), self.exchange.spot.checked_size()) {
            (Some(perp), Some(spot)) => Some((perp, spot)),
            _ => None,
        }
    }

    /// Finds an order of an account, among the perp markets first and in each market
    /// in the first queue that has it. Where several markets of a kind have it,
    /// which of them is looked at first is left open: it hangs on a hasher that is
    /// seeded anew for each map.
    pub fn get_order(&self, order_id: u32, user_account: Pubkey) -> (order: Option<Order>)
        requires
            self.wf(),
        ensures
            order is Some == is_on(self@, order_id, user_account),
            gives(self@, order_id, user_account, order),
            text_spells(user_account),
    {
        let order_signature = get_order_signature(order_id, user_account);
        match self.exchange.perp.get_order(order_signature.as_str()) {
            Some(order) => {
                proof {
                    assert(self@.markets(MarketType::Perp) == self.exchange.perp@);
                    lemma_offered(self@, MarketType::Perp, order_id, user_account, order);
                }
                Some(order)
            },
            None => {
                let order = self.exchange.spot.get_order(order_signature.as_str());
                proof {
                    lemma_not_on(self@, order_id, user_account);
                    if let Some(o) = order {
                        assert(self@.markets(MarketType::Spot) == self.exchange.spot@);
                        lemma_offered(self@, MarketType::Spot, order_id, user_account, o);
                    }
                }
                order
            },
        }
    }

    /// Puts the orders of the users into the book, in the order of `walk`. Unused
    /// orders are passed over.
    pub fn insert_users(&mut self, usermap: &Usermap, walk: &Vec<String>, slot: u64)
        requires
            old(self).wf(),
            usermap.wf(),
            keys_are_addresses(usermap@.users),
            spells(walk@, usermap@.users),
        ensures
            final(self).wf(),
            users_inserted(old(self)@, usermap@.users, walk@, slot, final(self)@),
            final(self).cell() == old(self).cell(),
    {
        let mut i: usize = 0;
        while i < walk.len()
            invariant
                i <= walk@.len(),
                self.wf(),
                self.cell() == old(self).cell(),
                usermap.wf(),
                keys_are_addresses(usermap@.users),
                spells(walk@, usermap@.users),
                users_inserted(
                    old(self)@,
                    usermap@.users,
                    walk@.take(i as int),
                    slot,
                    self@,
                ),
            decreases walk@.len() - i,
        {
            let ghost before = self@;
            let ghost key = walk@[i as int]@;
            assert(usermap@.users.contains_key(key));
            if let Some(account) = usermap.get(walk[i].as_str()) {
                if let Some(user_pubkey) = Pubkey::from_text(walk[i].as_str()) {
                    self.insert_orders(&account.data.orders, user_pubkey, slot);
                    assert(is_address(key, user_pubkey));
                }
            }
            proof {
                assert(walk@.take(i + 1).drop_last() =~= walk@.take(i as int));
                assert(walk@.take(i + 1).last()@ == key);
                assert(user_inserted(before, key, usermap@.users[key].orders, slot, self@));
            }
            i += 1;
        }
        assert(walk@.take(i as int) =~= walk@);
    }

    /// Puts the orders of an account into the book. Unused ones are passed over.
    pub fn insert_orders(&mut self, orders: &Vec<Order>, user_account: Pubkey, slot: u64)
        requires
            old(self).wf(),
        ensures
            final(self).wf(),
            orders_inserted(old(self)@, orders@, user_account, slot, final(self)@),
            final(self).cell() == old(self).cell(),
    {
        let mut i: usize = 0;
        while i < orders.len()
            invariant
                i <= orders@.len(),
                self.wf(),
                self.cell() == old(self).cell(),
                orders_inserted(
                    old(self)@,
                    orders@.take(i as int),
                    user_account,
                    slot,
                    self@,
                ),
            decreases orders@.len() - i,
        {
            let ghost before = self@;
            if orders[i].status != OrderStatus::Init {
                self.insert_order(&orders[i], user_account, slot);
            }
            proof {
                assert(orders@.take(i + 1).drop_last() =~= orders@.take(i as int));
                assert(used_order_inserted(
                    before,
                    orders@.take(i + 1).last(),
                    user_account,
                    slot,
                    self@,
                ));
            }
            i += 1;
        }
        assert(orders@.take(i as int) =~= orders@);
    }

    /// Empties the book and puts the orders of all users into it. Every key of the
    /// users must be the text of an address.
    pub fn build_from_usermap(&mut self, usermap: &Usermap, slot: u64)
        requires
            usermap.wf(),
            keys_are_addresses(usermap@.users),
        ensures
            final(self).wf(),
            built_from(usermap@.users, slot, final(self)@),
            final(self).cell() == old(self).cell(),
    {
        self.clear();
        let ghost cleared = self@;
        let walk = usermap.keys();
        self.insert_users(usermap, &walk, slot);
        let ghost filled = self@;
        self.initialized = true;
        proof {
            assert(users_inserted(cleared, usermap@.users, walk@, slot, filled));
            assert(users_inserted_by_some_walk(cleared, usermap@.users, slot, filled));
            assert(self@ =~= BookView { initialized: true, ..filled });
            lemma_sound_by_markets(filled, self@);
        }
    }

    /// Builds the book from the users where every key of theirs is the text of an
    /// address, and says whether it did. Else the book stays as it is.
    pub fn try_build_from_usermap(&mut self, usermap: &Usermap, slot: u64) -> (built: bool)
        requires
            old(self).wf(),
            usermap.wf(),
        ensures
            final(self).wf(),
            built == keys_are_addresses(usermap@.users),
            built ==> built_from(usermap@.users, slot, final(self)@),
            !built ==> final(self)@ == old(self)@,
            final(self).cell() == old(self).cell(),
    {
        let keys = usermap.keys();
        let mut i: usize = 0;
        while i < keys.len()
            invariant
                i <= keys@.len(),
                spells(keys@, usermap@.users),
                forall|k: int|
                    0 <= k < i ==> pubkey_of_text((#[trigger] keys@[k])@) is Some,
                self@ == old(self)@,
                self.wf(),
                self.cell() == old(self).cell(),
            decreases keys@.len() - i,
        {
            if Pubkey::from_text(keys[i].as_str()).is_none() {
                assert(usermap@.users.contains_key(keys@[i as int]@));
                return false;
            }
            i += 1;
        }
        assert(keys_are_addresses(usermap@.users)) by {
            assert forall|key: Seq<char>| #[trigger]
                usermap@.users.contains_key(key) implies pubkey_of_text(key) is Some by {
                let k = choose|k: int| 0 <= k < keys@.len() && (#[trigger] keys@[k])@ == key;
                assert(pubkey_of_text(keys@[k]@) is Some);
            }
        }
        self.build_from_usermap(usermap, slot);
        true
    }

    /// Empties the book.
    pub fn clear(&mut self)
        ensures
            final(self).wf(),
            final(self)@ == empty_book(Map::<Seq<char>, Set<Seq<char>>>::empty(), false),
            final(self).cell() == old(self).cell(),
    {
        self.exchange.clear();
        self.open_orders.clear();
        self.initialized = false;
        self.max_slot_for_resting_limit_orders.set(0);
    }

    /// Puts an order where it belongs in `slot`, adding its market where that is
    /// missing. It takes the place of an order with its signature in that queue.
    pub fn insert_order(&mut self, order: &Order, user_account: Pubkey, slot: u64)
        requires
            old(self).wf(),
        ensures
            final(self).wf(),
            order_inserted(old(self)@, *order, user_account, slot, final(self)@),
            final(self).cell() == old(self).cell(),
            text_spells(user_account),
    {
        let (sub_type, node_type) = get_node_subtype_and_type(order, slot);
        let node = create_node(*order, user_account);
        let ghost place = order_place(*order, slot);
        let ghost ready = self@.with_market(order.market_type, order.market_index);
        proof {
            lemma_with_market(self@, order.market_type, order.market_index);
        }

        let markets = self.exchange.markets_mut(order.market_type);
        markets.add_market_indempotent(order.market_index);
        let market = markets.get_mut(order.market_index);
        let order_list = market.get_order_list_for_node_insert(node_type);
        match sub_type {
            SubType::Bid => order_list.insert_bid(node),
            SubType::Ask => order_list.insert_ask(node),
        }

        proof {
            lemma_with_queue(ready, place, self@.queue(place));
            assert(self@ =~= ready.with_queue(place, self@.queue(place)));
            lemma_order_inserted_is_sound(old(self)@, *order, user_account, slot, self@);
        }
    }

    /// Writes an order over the one with its signature, in the queue in which it
    /// belongs in `slot`.
    pub(crate) fn update_order(&mut self, order: &Order, user_account: &Pubkey, slot: u64)
        requires
            old(self).wf(),
            old(self)@.has_market(order.market_type, order.market_index),
        ensures
            final(self).wf(),
            order_updated(old(self)@, *order, *user_account, slot, final(self)@),
            final(self).cell() == old(self).cell(),
            text_spells(*user_account),
    {
        let (sub_type, node_type) = get_node_subtype_and_type(order, slot);
        let ghost place = order_place(*order, slot);
        let markets = self.exchange.markets_mut(order.market_type);
        let market = markets.get_mut(order.market_index);
        let order_list = market.get_order_list_for_node_insert(node_type);
        order_list.update(order, user_account, sub_type);
        proof {
            lemma_with_queue(old(self)@, place, self@.queue(place));
            assert(self@ =~= old(self)@.with_queue(place, self@.queue(place)));
            lemma_order_updated_is_sound(old(self)@, *order, *user_account, slot, self@);
        }
    }

    /// Moves the orders of the markets of a kind that rest in `slot`.
    fn update_resting_limit_orders_for_market_type(&mut self, slot: u64, market_type: MarketType)
        requires
            old(self).exchange.wf(),
            old(self).open_orders.wf(),
        ensures
            final(self).exchange.wf(),
            final(self).open_orders.wf(),
            rested_by_some_walk(
                old(self)@.markets(market_type),
                slot,
                final(self)@.markets(market_type),
            ),
            final(self)@ == old(self)@.with_markets(
                market_type,
                final(self)@.markets(market_type),
            ),
            final(self).cell() == old(self).cell(),
    {
        let walk = self.exchange.markets(market_type).keys();
        let markets = self.exchange.markets_mut(market_type);
        rest_markets(markets, slot, &walk);
        proof {
            assert(walks(walk@, old(self)@.markets(market_type)));
            assert(rested(
                old(self)@.markets(market_type),
                walk@,
                slot,
                self@.markets(market_type),
            ));
        }
    }

    /// Looks at the watermark of the book.
    pub(crate) fn look(&mut self)
        requires
            old(self).wf(),
        ensures
            final(self).wf(),
            final(self).cell() == old(self).cell(),
            old(self).reads(final(self)@),
    {
        self.max_slot_for_resting_limit_orders.look();
        proof {
            lemma_sound_by_markets(old(self)@, self@);
        }
    }

    /// Brings the book to `slot`, going by the watermark as it was last looked at.
    pub(crate) fn bring(&mut self, slot: u64)
        requires
            old(self).wf(),
        ensures
            final(self).wf(),
            final(self).cell() == old(self).cell(),
            brought_to(old(self)@, slot, final(self)@),
    {
        if slot <= self.max_slot_for_resting_limit_orders.get() {
            return;
        }
        self.max_slot_for_resting_limit_orders.set(slot);
        self.update_resting_limit_orders_for_market_type(slot, MarketType::Perp);
        self.update_resting_limit_orders_for_market_type(slot, MarketType::Spot);
        proof {
            lemma_brought_to_is_sound(old(self)@, slot, self@);
        }
    }

    /// Brings the book to `slot`: moves the limit orders that rest in it to the
    /// resting lists. Nothing happens where the book or a copy of it was brought to
    /// that slot or a later one before.
    pub fn update_resting_limit_orders(&mut self, slot: u64)
        requires
            old(self).wf(),
        ensures
            final(self).wf(),
            final(self).cell() == old(self).cell(),
            exists|book: BookView| #[trigger]
                old(self).reads(book) && brought_to(book, slot, final(self)@),
    {
        self.look();
        self.bring(slot);
    }

    /// Says whether the book has a market.
    pub fn has_market(&self, market_type: MarketType, market_index: u16) -> (there: bool)
        requires
            self.wf(),
        ensures
            there == self@.has_market(market_type, market_index),
    {
        self.exchange.markets(market_type).get(market_index).is_some()
    }

    /// Lists the nodes of a queue, the best first. The market must be there.
    pub fn get_best_orders(
        &self,
        market_type: MarketType,
        sub_type: SubType,
        node_type: NodeType,
        market_index: u16,
    ) -> (nodes: Vec<Node>)
        requires
            self.wf(),
            self@.has_market(market_type, market_index),
        ensures
            nodes@ == self@.queue(Place { market_type, market_index, node_type, sub_type }),
    {
        match self.exchange.markets(market_type).get(market_index) {
            Some(market) => market.get_order_list_for_node_type(node_type).best_nodes(sub_type),
            None => Vec::new(),
        }
    }

    /// Brings the book to `slot`, going by the watermark as it was last looked at, and
    /// lists the makers of a side, the best price first.
    pub(crate) fn get_resting_limit_orders(
        &mut self,
        slot: u64,
        market_type: MarketType,
        market_index: u16,
        sub_type: SubType,
        oracle_price_data: OraclePriceData,
    ) -> (nodes: Vec<Node>)
        requires
            old(self).wf(),
            old(self)@.has_market(market_type, market_index),
            quotes_sortable(
                old(self)@,
                Side { market_type, market_index, sub_type },
                oracle_price_data,
                slot,
            ),
        ensures
            final(self).wf(),
            final(self).cell() == old(self).cell(),
            brought_to(old(self)@, slot, final(self)@),
            nodes@ == quotes(
                final(self)@,
                Side { market_type, market_index, sub_type },
                oracle_price_data,
                slot,
            ),
    {
        let ghost side = Side { market_type, market_index, sub_type };
        self.bring(slot);
        proof {
            lemma_brought_to_is_sound(old(self)@, slot, self@);
        }

        let mut all_orders = self.get_best_orders(
            market_type,
            sub_type,
            NodeType::RestingLimit,
            market_index,
        );
        let mut floating_limit_orders = self.get_best_orders(
            market_type,
            sub_type,
            NodeType::FloatingLimit,
            market_index,
        );
        all_orders.append(&mut floating_limit_orders);
        let ghost rank = price_rank(sub_type, oracle_price_data, slot);
        if all_orders.len() < 2 {
            assert(all_orders@ =~= rank_sorted(all_orders@, rank)) by {
                reveal_with_fuel(rank_sorted, 2);
                if all_orders@.len() == 1 {
                    assert(all_orders@.drop_last() =~= Seq::<Node>::empty());
                }
            }
            return all_orders;
        }
        proof {
            if at_most_one_quote(old(self)@, side, slot) {
                lemma_at_most_one_quote(old(self)@, slot, self@, side);
            }
            lemma_quotes_are_quoted(old(self)@, slot, self@, side, oracle_price_data);
            lemma_rank_sorted(all_orders@, rank);
            assert forall|i: int| 0 <= i < all_orders@.len() implies (
            #[trigger] all_orders@[i]).priced(oracle_price_data, slot) by {
                assert(all_orders@.contains(all_orders@[i]));
                assert(quotes(self@, side, oracle_price_data, slot).contains(all_orders@[i]));
                assert(will_quote(old(self)@, side, slot, all_orders@[i]));
            }
        }

        let mut ranks: Vec<i128> = Vec::new();
        let mut i: usize = 0;
        while i < all_orders.len()
            invariant
                i <= all_orders@.len(),
                forall|k: int|
                    0 <= k < all_orders@.len() ==> (#[trigger] all_orders@[k]).priced(
                        oracle_price_data,
                        slot,
                    ),
                rank == price_rank(sub_type, oracle_price_data, slot),
                ranks@.len() == i,
                forall|k: int| 0 <= k < i ==> #[trigger] ranks@[k] == rank(all_orders@[k]),
            decreases all_orders@.len() - i,
        {
            let price: i128 = all_orders[i].get_price(oracle_price_data, slot) as i128;
            match sub_type {
                SubType::Ask => ranks.push(price),
                SubType::Bid => ranks.push(-price),
            }
            i += 1;
        }
        sort_by_rank(all_orders, ranks, Ghost(rank))
    }

    /// Brings the book to `slot` and lists the resting and floating asks of a
    /// market, the lowest price first.
    pub fn get_resting_limit_asks(
        &mut self,
        slot: u64,
        market_type: MarketType,
        market_index: u16,
        oracle_price_data: OraclePriceData,
    ) -> (nodes: Vec<Node>)
        requires
            old(self).wf(),
            old(self)@.has_market(market_type, market_index),
            forall|book: BookView| #[trigger]
                old(self).reads(book) ==> quotes_sortable(
                    book,
                    Side { market_type, market_index, sub_type: SubType::Ask },
                    oracle_price_data,
                    slot,
                ),
        ensures
            final(self).wf(),
            final(self).cell() == old(self).cell(),
            exists|book: BookView| #[trigger]
                old(self).reads(book) && brought_to(book, slot, final(self)@),
            nodes@ == quotes(
                final(self)@,
                Side { market_type, market_index, sub_type: SubType::Ask },
                oracle_price_data,
                slot,
            ),
    {
        self.look();
        self.get_resting_limit_orders(
            slot,
            market_type,
            market_index,
            SubType::Ask,
            oracle_price_data,
        )
    }

    /// Brings the book to `slot` and lists the resting and floating bids of a
    /// market, the highest price first.
    pub fn get_resting_limit_bids(
        &mut self,
        slot: u64,
        market_type: MarketType,
        market_index: u16,
        oracle_price_data: OraclePriceData,
    ) -> (nodes: Vec<Node>)
        requires
            old(self).wf(),
            old(self)@.has_market(market_type, market_index),
            forall|book: BookView| #[trigger]
                old(self).reads(book) ==> quotes_sortable(
                    book,
                    Side { market_type, market_index, sub_type: SubType::Bid },
                    oracle_price_data,
                    slot,
                ),
        ensures
            final(self).wf(),
            final(self).cell() == old(self).cell(),
            exists|book: BookView| #[trigger]
                old(self).reads(book) && brought_to(book, slot, final(self)@),
            nodes@ == quotes(
                final(self)@,
                Side { market_type, market_index, sub_type: SubType::Bid },
                oracle_price_data,
                slot,
            ),
    {
        self.look();
        self.get_resting_limit_orders(
            slot,
            market_type,
            market_index,
            SubType::Bid,
            oracle_price_data,
        )
    }

    /// Brings the book to `slot` and lists the orders of a side that take, the
    /// one that was placed last first.
    pub fn get_taking_orders(
        &mut self,
        slot: u64,
        market_type: MarketType,
        market_index: u16,
        sub_type: SubType,
    ) -> (nodes: Vec<Node>)
        requires
            old(self).wf(),
            old(self)@.has_market(market_type, market_index),
        ensures
            final(self).wf(),
            final(self).cell() == old(self).cell(),
            exists|book: BookView| #[trigger]
                old(self).reads(book) && brought_to(book, slot, final(self)@),
            nodes@ == takers(final(self)@, Side { market_type, market_index, sub_type }),
    {
        self.look();
        self.list_taking_orders(slot, market_type, market_index, sub_type)
    }

    /// Brings the book to `slot`, going by the watermark as it was last looked at, and
    /// lists the orders of a side that take, the one that was placed last first.
    pub(crate) fn list_taking_orders(
        &mut self,
        slot: u64,
        market_type: MarketType,
        market_index: u16,
        sub_type: SubType,
    ) -> (nodes: Vec<Node>)
        requires
            old(self).wf(),
            old(self)@.has_market(market_type, market_index),
        ensures
            final(self).wf(),
            final(self).cell() == old(self).cell(),
            brought_to(old(self)@, slot, final(self)@),
            nodes@ == takers(final(self)@, Side { market_type, market_index, sub_type }),
    {
        self.bring(slot);
        proof {
            lemma_brought_to_is_sound(old(self)@, slot, self@);
        }

        let mut all_orders = self.get_best_orders(
            market_type,
            sub_type,
            NodeType::TakingLimit,
            market_index,
        );
        let mut market_orders = self.get_best_orders(
            market_type,
            sub_type,
            NodeType::Market,
            market_index,
        );
        all_orders.append(&mut market_orders);

        let ghost rank = slot_rank();
        let mut ranks: Vec<i128> = Vec::new();
        let mut i: usize = 0;
        while i < all_orders.len()
            invariant
                i <= all_orders@.len(),
                rank == slot_rank(),
                ranks@.len() == i,
                forall|k: int| 0 <= k < i ==> #[trigger] ranks@[k] == rank(all_orders@[k]),
            decreases all_orders@.len() - i,
        {
            ranks.push(-(all_orders[i].order.slot as i128));
            i += 1;
        }
        sort_by_rank(all_orders, ranks, Ghost(rank))
    }
}

impl Default for DLOB {
    fn default() -> (dlob: Self)
        ensures
            dlob.wf(),
            dlob@ == empty_book(no_open_orders(), true),
            !dlob.shared(),
    {
        DLOB::new()
    }
}

impl DLOB {
    /// Makes a copy of the book. The orders of the two are apart, but they have their
    /// watermark in common from then on: bringing one of them to a slot counts for
    /// the other, and so does clearing one.
    pub fn clone(&mut self) -> (copy: DLOB)
        requires
            old(self).wf(),
        ensures
            final(self).wf(),
            final(self)@ == old(self)@,
            final(self).shared(),
            old(self).shared() ==> final(self).cell() == old(self).cell(),
            copy.wf(),
            copy@ == old(self)@,
            copy.cell() == final(self).cell(),
    {
        let copy = DLOB {
            exchange: self.exchange.clone(),
            open_orders: self.open_orders.clone(),
            initialized: self.initialized,
            max_slot_for_resting_limit_orders: self.max_slot_for_resting_limit_orders.share(),
        };
        assert(copy@ =~= old(self)@);
        copy
    }
}

proof fn lemma_offered(
    book: BookView,
    kind: MarketType,
    order_id: u32,
    user_account: Pubkey,
    order: Order,
)
    requires
        exists|key: u16| #[trigger]
            book.markets(kind).contains_key(key) && book.markets(kind)[key].finds(
                order_signature(order_id, user_account),
                order,
            ),
    ensures
        offered(book, kind, order_id, user_account, order),
        on_kind(book, kind, order_id, user_account),
        is_on(book, order_id, user_account),
{
    let key = choose|key: u16| #[trigger]
        book.markets(kind).contains_key(key) && book.markets(kind)[key].finds(
            order_signature(order_id, user_account),
            order,
        );
    assert(book.has_market(kind, key));
    lemma_offered_is_on(book, kind, order_id, user_account, order);
}

proof fn lemma_not_on(book: BookView, order_id: u32, user_account: Pubkey)
    ensures
        (forall|key: u16, node_type: NodeType, sub_type: SubType|
            book.perp.contains_key(key) ==> !holds(
                #[trigger] book.perp[key].queue(node_type, sub_type),
                order_signature(order_id, user_account),
            )) ==> !on_kind(book, MarketType::Perp, order_id, user_account),
        (forall|key: u16, node_type: NodeType, sub_type: SubType|
            book.spot.contains_key(key) ==> !holds(
                #[trigger] book.spot[key].queue(node_type, sub_type),
                order_signature(order_id, user_account),
            )) ==> !on_kind(book, MarketType::Spot, order_id, user_account),
        is_on(book, order_id, user_account) ==> on_kind(
            book,
            MarketType::Perp,
            order_id,
            user_account,
        ) || on_kind(book, MarketType::Spot, order_id, user_account),
{
    let signature = order_signature(order_id, user_account);
    if is_on(book, order_id, user_account) {
        let place = choose|place: Place|
            book.has(place) && holds(#[trigger] book.queue(place), signature);
        assert(on_kind(book, place.market_type, order_id, user_account));
    }
    if on_kind(book, MarketType::Perp, order_id, user_account) {
        let place = choose|place: Place|
            place.market_type == MarketType::Perp && book.has(place) && holds(
                #[trigger] book.queue(place),
                signature,
            );
        assert(holds(
            book.perp[place.market_index].queue(place.node_type, place.sub_type),
            signature,
        ));
    }
    if on_kind(book, MarketType::Spot, order_id, user_account) {
        let place = choose|place: Place|
            place.market_type == MarketType::Spot && book.has(place) && holds(
                #[trigger] book.queue(place),
                signature,
            );
        assert(holds(
            book.spot[place.market_index].queue(place.node_type, place.sub_type),
            signature,
        ));
    }
}

} // verus!
