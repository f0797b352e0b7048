//! The signatures of the open orders, by the name of the market kind.

use vstd::prelude::*;

use dashmap::{DashMap, DashSet};
use std::collections::hash_map::RandomState;

use crate::index::{
    text_index_clear, text_index_clone, text_index_insert, text_index_new, text_positions,
    text_set_clone, text_set_new, texts,
};

verus! {

/// The signatures of the open orders, by the name of the market kind.
pub struct OpenOrders {
    index: DashMap<String, usize, RandomState>,
    sets: Vec<DashSet<String, RandomState>>,
}

impl View for OpenOrders {
    type V = Map<Seq<char>, Set<Seq<char>>>;

    closed spec fn view(&self) -> Map<Seq<char>, Set<Seq<char>>> {
        text_positions(self.index).map_values(|position: usize| texts(self.sets@[position as int]))
    }
}

impl OpenOrders {
    /// Whether every name has a set.
    pub closed spec fn wf(&self) -> bool {
        forall|name: Seq<char>| #[trigger]
            text_positions(self.index).contains_key(name) ==> text_positions(self.index)[name]
                < self.sets@.len()
    }

    /// Makes a map without names.
    pub fn new() -> (open_orders: OpenOrders)
        ensures
            open_orders.wf(),
            open_orders@ == Map::<Seq<char>, Set<Seq<char>>>::empty(),
    {
        let open_orders = OpenOrders { index: text_index_new(), sets: Vec::new() };
        assert(open_orders@ =~= Map::<Seq<char>, Set<Seq<char>>>::empty());
        open_orders
    }

    /// Gives a name an empty set.
    pub fn insert(&mut self, name: String)
        requires
            old(self).wf(),
        ensures
            final(self).wf(),
            final(self)@ == old(self)@.insert(name@, Set::<Seq<char>>::empty()),
    {
        let position: usize = self.sets.len();
        let ghost key = name@;
        self.sets.push(text_set_new());
        text_index_insert(&mut self.index, name, position);
        assert(self@ =~= old(self)@.insert(key, Set::<Seq<char>>::empty()));
    }

    /// Removes every name.
    pub fn clear(&mut self)
        ensures
            final(self).wf(),
            final(self)@ == Map::<Seq<char>, Set<Seq<char>>>::empty(),
    {
        text_index_clear(&mut self.index);
        self.sets.clear();
        assert(self@ =~= Map::<Seq<char>, Set<Seq<char>>>::empty());
    }
}

impl Clone for OpenOrders {
    fn clone(&self) -> (copy: Self)
        ensures
            self.wf() ==> copy.wf() && copy@ == self@,
    {
        let mut sets: Vec<DashSet<String, RandomState>> = Vec::new();
        let mut i: usize = 0;
        while i < self.sets.len()
            invariant
                i <= self.sets@.len(),
                sets@.len() == i,
                forall|k: int| 0 <= k < i ==> texts(#[trigger] sets@[k]) == texts(self.sets@[k]),
            decreases self.sets@.len() - i,
        {
            sets.push(text_set_clone(&self.sets[i]));
            i += 1;
        }
        let copy = OpenOrders { index: text_index_clone(&self.index), sets };
        assert(self.wf() ==> copy@ =~= self@);
        copy
    }
}

} // verus!
