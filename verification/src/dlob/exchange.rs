//! The markets of the exchange, by kind and index.

use vstd::prelude::*;

use dashmap::DashMap;
use std::collections::hash_map::RandomState;

use crate::dlob::market::{checked_sum, empty_market, Market, MarketView};
use crate::dlob::node::{NodeType, SubType};
use crate::dlob::order_queue::holds;
use crate::index::{
    market_index_clear, market_index_clone, market_index_get, market_index_insert,
    market_index_keys, market_index_new, market_positions, walks,
};
use crate::types::{MarketType, Order};

verus! {

/// How many orders the markets with an index below `end` have.
pub open spec fn count_below(markets: Map<u16, MarketView>, end: nat) -> nat
    decreases end,
{
    if end == 0 {
        0
    } else {
        let key = (end - 1) as u16;
        count_below(markets, (end - 1) as nat) + if markets.contains_key(key) {
            markets[key].size()
        } else {
            0
        }
    }
}

/// How many orders the markets have.
pub open spec fn order_count(markets: Map<u16, MarketView>) -> nat {
    count_below(markets, 0x1_0000)
}

/// There is nothing to count without markets.
pub proof fn lemma_count_nothing(end: nat)
    ensures
        count_below(Map::<u16, MarketView>::empty(), end) == 0,
    decreases end,
{
    if end > 0 {
        lemma_count_nothing((end - 1) as nat);
    }
}

proof fn lemma_count_one_more(
    markets: Map<u16, MarketView>,
    key: u16,
    market: MarketView,
    end: nat,
)
    requires
        !markets.contains_key(key),
        end <= 0x1_0000,
    ensures
        count_below(markets.insert(key, market), end) == count_below(markets, end) + if key < end {
            market.size()
        } else {
            0
        },
    decreases end,
{
    if end > 0 {
        lemma_count_one_more(markets, key, market, (end - 1) as nat);
    }
}

proof fn lemma_count_fewer(some: Map<u16, MarketView>, all: Map<u16, MarketView>, end: nat)
    requires
        some.submap_of(all),
    ensures
        count_below(some, end) <= count_below(all, end),
    decreases end,
{
    if end > 0 {
        lemma_count_fewer(some, all, (end - 1) as nat);
        let key = (end - 1) as u16;
        if some.contains_key(key) {
            assert(some.dom().contains(key));
            assert(all.contains_key(key) && all[key] == some[key]);
        }
    }
}

/// The markets of one kind, by index.
pub struct MarketMap {
    index: DashMap<u16, usize, RandomState>,
    markets: Vec<Market>,
}

impl View for MarketMap {
    type V = Map<u16, MarketView>;

    closed spec fn view(&self) -> Map<u16, MarketView> {
        market_positions(self.index).map_values(|position: usize| self.markets@[position as int]@)
    }
}

impl MarketMap {
    /// Whether every index has a market of its own, and each market is
    /// well-formed.
    pub closed spec fn wf(&self) -> bool {
        let positions = market_positions(self.index);
        &&& forall|key: u16| #[trigger]
            positions.contains_key(key) ==> positions[key] < self.markets@.len()
        &&& forall|a: u16, b: u16| #[trigger]
            positions.contains_key(a) && #[trigger] positions.contains_key(b) && a != b
                ==> positions[a] != positions[b]
        &&& forall|i: int| 0 <= i < self.markets@.len() ==> (#[trigger] self.markets@[i]).wf()
    }

    /// Makes a map without markets.
    pub fn new() -> (map: MarketMap)
        ensures
            map.wf(),
            map@ == Map::<u16, MarketView>::empty(),
    {
        let map = MarketMap { index: market_index_new(), markets: Vec::new() };
        assert(map@ =~= Map::<u16, MarketView>::empty());
        map
    }

    /// Adds a market without orders, unless there is one with that index.
    pub fn add_market_indempotent(&mut self, market_index: u16)
        requires
            old(self).wf(),
        ensures
            final(self).wf(),
            final(self)@ == if old(self)@.contains_key(market_index) {
                old(self)@
            } else {
                old(self)@.insert(market_index, empty_market())
            },
    {
        if market_index_get(&self.index, market_index).is_none() {
            let position: usize = self.markets.len();
            self.markets.push(Market::new());
            market_index_insert(&mut self.index, market_index, position);
            assert(self@ =~= old(self)@.insert(market_index, empty_market()));
        }
    }

    /// Gives a market, to read.
    pub fn get(&self, market_index: u16) -> (market: Option<&Market>)
        requires
            self.wf(),
        ensures
            match market {
                Some(m) => self@.contains_key(market_index) && m.wf() && m@ == self@[market_index],
                None => !self@.contains_key(market_index),
            },
    {
        match market_index_get(&self.index, market_index) {
            Some(position) => Some(&self.markets[position]),
            None => None,
        }
    }

    /// Gives a market that is there, to change.
    pub fn get_mut(&mut self, market_index: u16) -> (market: &mut Market)
        requires
            old(self).wf(),
            old(self)@.contains_key(market_index),
        ensures
            market.wf(),
            market@ == old(self)@[market_index],
            final(market).wf() ==> final(self).wf() && final(self)@ == old(self)@.insert(
                market_index,
                final(market)@,
            ),
    {
        let position: usize = match market_index_get(&self.index, market_index) {
            Some(position) => position,
            None => 0,
        };
        &mut self.markets[position]
    }

    /// Lists the indexes of the markets, in no set order.
    pub fn keys(&self) -> (keys: Vec<u16>)
        ensures
            walks(keys@, self@),
    {
        market_index_keys(&self.index)
    }

    /// Counts the orders of all markets.
    pub fn size(&self) -> (size: usize)
        requires
            self.wf(),
            order_count(self@) <= usize::MAX,
        ensures
            size == order_count(self@),
    {
        match self.checked_size() {
            Some(size) => size,
            None => 0,
        }
    }

    /// Counts the orders of all markets, or gives nothing where they are more than can
    /// be counted.
    pub fn checked_size(&self) -> (size: Option<usize>)
        requires
            self.wf(),
        ensures
            size is Some == (order_count(self@) <= usize::MAX),
            size matches Some(n) ==> n == order_count(self@),
    {
        let keys = self.keys();
        let mut size: usize = 0;
        let ghost mut seen = Map::<u16, MarketView>::empty();
        let mut i: usize = 0;
        proof {
            lemma_count_nothing(0x1_0000);
        }
        while i < keys.len()
            invariant
                i <= keys@.len(),
                self.wf(),
                walks(keys@, self@),
                seen.submap_of(self@),
                forall|key: u16| #[trigger]
                    seen.contains_key(key) <==> keys@.take(i as int).contains(key),
                size == order_count(seen),
            decreases keys@.len() - i,
        {
            let key: u16 = keys[i];
            let ghost before = seen;
            proof {
                assert(keys@.contains(key));
                assert(self@.contains_key(key));
                if before.contains_key(key) {
                    let k = choose|k: int|
                        0 <= k < keys@.take(i as int).len() && keys@.take(i as int)[k] == key;
                    assert(keys@[k] == keys@[i as int]);
                }
                seen = before.insert(key, self@[key]);
                lemma_count_one_more(before, key, self@[key], 0x1_0000);
                assert(seen.submap_of(self@));
                lemma_count_fewer(seen, self@, 0x1_0000);
                assert forall|k: u16| #[trigger] seen.contains_key(k) <==> keys@.take(
                    i + 1,
                ).contains(k) by {
                    assert(keys@.take(i + 1) =~= keys@.take(i as int).push(key));
                    if keys@.take(i as int).contains(k) {
                        let j = choose|j: int|
                            0 <= j < keys@.take(i as int).len() && keys@.take(i as int)[j] == k;
                        assert(keys@.take(i + 1)[j] == k);
                    }
                    assert(keys@.take(i + 1)[i as int] == key);
                }
            }
            if let Some(market) = self.get(key) {
                match checked_sum(Some(size), market.checked_size()) {
                    Some(sum) => size = sum,
                    None => return None,
                }
            }
            i += 1;
        }
        proof {
            assert(keys@.take(i as int) =~= keys@);
            assert(seen =~= self@);
        }
        Some(size)
    }

    /// Finds an order by its signature, looking through the markets in no set
    /// order.
    pub fn get_order(&self, signature: &str) -> (order: Option<Order>)
        requires
            self.wf(),
        ensures
            match order {
                Some(o) => exists|key: u16| #[trigger]
                    self@.contains_key(key) && self@[key].finds(signature@, o),
                None => forall|key: u16, node_type: NodeType, sub_type: SubType|
                    self@.contains_key(key) ==> !holds(
                        #[trigger] self@[key].queue(node_type, sub_type),
                        signature@,
                    ),
            },
    {
        let keys = self.keys();
        let mut i: usize = 0;
        while i < keys.len()
            invariant
                i <= keys@.len(),
                self.wf(),
                walks(keys@, self@),
                forall|k: int, node_type: NodeType, sub_type: SubType|
                    0 <= k < i ==> !holds(
                        #[trigger] self@[keys@[k]].queue(node_type, sub_type),
                        signature@,
                    ),
            decreases keys@.len() - i,
        {
            assert(keys@.contains(keys@[i as int]));
            if let Some(market) = self.get(keys[i]) {
                if let Some(order) = market.get_order(signature) {
                    assert(self@.contains_key(keys@[i as int]));
                    return Some(order);
                }
            }
            i += 1;
        }
        proof {
            assert forall|key: u16, node_type: NodeType, sub_type: SubType|
                self@.contains_key(key) implies !holds(
                #[trigger] self@[key].queue(node_type, sub_type),
                signature@,
            ) by {
                assert(keys@.contains(key));
                let k = choose|k: int| 0 <= k < keys@.len() && keys@[k] == key;
                assert(!holds(self@[keys@[k]].queue(node_type, sub_type), signature@));
            }
        }
        None
    }

    /// Removes every market.
    pub fn clear(&mut self)
        ensures
            final(self).wf(),
            final(self)@ == Map::<u16, MarketView>::empty(),
    {
        market_index_clear(&mut self.index);
        self.markets.clear();
        assert(self@ =~= Map::<u16, MarketView>::empty());
    }
}

impl Clone for MarketMap {
    fn clone(&self) -> (copy: Self)
        ensures
            self.wf() ==> copy.wf() && copy@ == self@,
    {
        let mut markets: Vec<Market> = Vec::new();
        let mut i: usize = 0;
        while i < self.markets.len()
            invariant
                i <= self.markets@.len(),
                markets@.len() == i,
                forall|k: int|
                    0 <= k < i && self.markets@[k].wf() ==> (#[trigger] markets@[k]).wf()
                        && markets@[k]@ == self.markets@[k]@,
            decreases self.markets@.len() - i,
        {
            markets.push(self.markets[i].clone());
            i += 1;
        }
        let copy = MarketMap { index: market_index_clone(&self.index), markets };
        proof {
            if self.wf() {
                assert(copy@ =~= self@);
            }
        }
        copy
    }
}

/// The markets of the exchange.
pub struct Exchange {
    pub perp: MarketMap,
    pub spot: MarketMap,
}

impl Exchange {
    /// The markets of a kind.
    pub open spec fn of_kind(&self, market_type: MarketType) -> MarketMap {
        match market_type {
            MarketType::Perp => self.perp,
            MarketType::Spot => self.spot,
        }
    }

    /// Whether the markets of both kinds are well-formed.
    pub open spec fn wf(&self) -> bool {
        self.perp.wf() && self.spot.wf()
    }

    /// Makes an exchange without markets.
    pub fn new() -> (exchange: Exchange)
        ensures
            exchange.wf(),
            exchange.perp@ == Map::<u16, MarketView>::empty(),
            exchange.spot@ == Map::<u16, MarketView>::empty(),
    {
        Exchange { perp: MarketMap::new(), spot: MarketMap::new() }
    }

    /// Counts the orders of the perp markets.
    pub fn perp_size(&self) -> (size: usize)
        requires
            self.wf(),
            order_count(self.perp@) <= usize::MAX,
        ensures
            size == order_count(self.perp@),
    {
        self.perp.size()
    }

    /// Counts the orders of the spot markets.
    pub fn spot_size(&self) -> (size: usize)
        requires
            self.wf(),
            order_count(self.spot@) <= usize::MAX,
        ensures
            size == order_count(self.spot@),
    {
        self.spot.size()
    }

    /// Gives the markets of a kind, to read.
    pub fn markets(&self, market_type: MarketType) -> (markets: &MarketMap)
        ensures
            *markets == self.of_kind(market_type),
    {
        match market_type {
            MarketType::Perp => &self.perp,
            MarketType::Spot => &self.spot,
        }
    }

    /// Gives the markets of a kind, to change.
    pub fn markets_mut(&mut self, market_type: MarketType) -> (markets: &mut MarketMap)
        ensures
            *markets == old(self).of_kind(market_type),
            *final(self) == match market_type {
                MarketType::Perp => Exchange { perp: *final(markets), spot: old(self).spot },
                MarketType::Spot => Exchange { perp: old(self).perp, spot: *final(markets) },
            },
    {
        match market_type {
            MarketType::Perp => &mut self.perp,
            MarketType::Spot => &mut self.spot,
        }
    }

    /// Removes every market.
    pub fn clear(&mut self)
        ensures
            final(self).wf(),
            final(self).perp@ == Map::<u16, MarketView>::empty(),
            final(self).spot@ == Map::<u16, MarketView>::empty(),
    {
        self.perp.clear();
        self.spot.clear();
    }
}

impl Clone for Exchange {
    fn clone(&self) -> (copy: Self)
        ensures
            self.wf() ==> copy.wf() && copy.perp@ == self.perp@ && copy.spot@ == self.spot@,
    {
        Exchange { perp: self.perp.clone(), spot: self.spot.clone() }
    }
}

} // verus!
