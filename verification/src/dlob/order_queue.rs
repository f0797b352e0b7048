//! One side of an order list: nodes ranked by what the list sorts on.

use vstd::hash_map::StringHashMap;
use vstd::prelude::*;

use mut_binary_heap::{BinaryHeap, MaxComparator};

use crate::dlob::heap::{
    has_key, heap_clone, heap_keys, heap_len, heap_new, heap_pop, heap_pops, heap_push, pushed,
    ranked,
};
use crate::dlob::node::{get_order_signature, Node, NodeType, SubType};
use crate::pubkey::{text_spells, Pubkey};
use crate::types::Order;

verus! {

/// What a list of the given type sorts its orders on.
pub open spec fn sort_value(node_type: NodeType, order: Order) -> int {
    match node_type {
        NodeType::TakingLimit | NodeType::Market => order.slot as int,
        NodeType::RestingLimit => order.price as int,
        NodeType::FloatingLimit => order.oracle_price_offset as int,
        NodeType::Trigger => order.trigger_price as int,
    }
}

/// Whether the smallest sort value comes first. Orders that take liquidity come
/// by age; makers come by price, the best first; triggers come in the order in
/// which a moving price meets them.
pub open spec fn ascending(node_type: NodeType, sub_type: SubType) -> bool {
    match node_type {
        NodeType::TakingLimit | NodeType::Market => true,
        NodeType::RestingLimit | NodeType::FloatingLimit => sub_type == SubType::Ask,
        NodeType::Trigger => sub_type == SubType::Bid,
    }
}

/// The rank of an order within a queue: the greatest comes first.
pub open spec fn priority(node_type: NodeType, sub_type: SubType, order: Order) -> int {
    if ascending(node_type, sub_type) {
        -sort_value(node_type, order)
    } else {
        sort_value(node_type, order)
    }
}

/// Whether a node with the signature is among `nodes`.
pub open spec fn holds(nodes: Seq<Node>, signature: Seq<char>) -> bool {
    exists|i: int| 0 <= i < nodes.len() && (#[trigger] nodes[i]).signature() == signature
}

/// Whether `nodes` is a queue: no signature occurs twice, and no node has a
/// greater priority than one before it.
pub open spec fn is_queue(node_type: NodeType, sub_type: SubType, nodes: Seq<Node>) -> bool {
    &&& forall|i: int, j: int|
        0 <= i < j < nodes.len() ==> (#[trigger] nodes[i]).signature() != (
        #[trigger] nodes[j]).signature()
    &&& forall|i: int, j: int|
        0 <= i < j < nodes.len() ==> priority(node_type, sub_type, (#[trigger] nodes[i]).order)
            >= priority(node_type, sub_type, (#[trigger] nodes[j]).order)
}

/// Whether `after` is the queue `before` once `node` is put into it. The node
/// takes the place of one with its signature; where that one had the same
/// priority the new node stands exactly where it stood. Which of two nodes of
/// one priority comes first is otherwise left open.
pub open spec fn inserted(
    node_type: NodeType,
    sub_type: SubType,
    before: Seq<Node>,
    node: Node,
    after: Seq<Node>,
) -> bool {
    &&& is_queue(node_type, sub_type, after)
    &&& forall|n: Node| #[trigger]
        after.contains(n) <==> n == node || (before.contains(n) && n.signature()
            != node.signature())
    &&& after.len() == before.len() + if holds(before, node.signature()) {
        0int
    } else {
        1int
    }
    &&& forall|i: int|
        0 <= i < before.len() && (#[trigger] before[i]).signature() == node.signature()
            && priority(node_type, sub_type, before[i].order) == priority(
            node_type,
            sub_type,
            node.order,
        ) ==> after == before.update(i, node)
}

/// Whether `after` is the queue `before` once the order of `node` is written
/// into the node with its signature. A queue without one stays as it is.
pub open spec fn replaced(
    node_type: NodeType,
    sub_type: SubType,
    before: Seq<Node>,
    node: Node,
    after: Seq<Node>,
) -> bool {
    if holds(before, node.signature()) {
        inserted(node_type, sub_type, before, node, after)
    } else {
        after == before
    }
}

/// One side of an order list.
pub struct OrderQueue {
    node_type: NodeType,
    sub_type: SubType,
    heap: BinaryHeap<String, i128, MaxComparator>,
    nodes: StringHashMap<Node>,
}

impl View for OrderQueue {
    type V = Seq<Node>;

    /// The nodes, the one of the greatest priority first.
    closed spec fn view(&self) -> Seq<Node> {
        Seq::new(heap_pops(self.heap).len(), |i: int| self.nodes@[heap_pops(self.heap)[i].0])
    }
}

impl OrderQueue {
    /// The type of the list that the queue belongs to.
    pub closed spec fn list_type(&self) -> NodeType {
        self.node_type
    }

    /// The side of the list that the queue is.
    pub closed spec fn side(&self) -> SubType {
        self.sub_type
    }

    /// Whether the heap ranks exactly the nodes at hand, each by its priority.
    pub closed spec fn wf(&self) -> bool {
        let pops = heap_pops(self.heap);
        &&& ranked(pops)
        &&& forall|i: int|
            0 <= i < pops.len() ==> self.nodes@.contains_key((#[trigger] pops[i]).0)
                && self.nodes@[pops[i].0].signature() == pops[i].0 && priority(
                self.node_type,
                self.sub_type,
                self.nodes@[pops[i].0].order,
            ) == pops[i].1
        &&& forall|key: Seq<char>| #[trigger] self.nodes@.contains_key(key) ==> has_key(pops, key)
    }

    /// The nodes of a well-formed queue are a queue.
    pub proof fn lemma_is_queue(&self)
        requires
            self.wf(),
        ensures
            is_queue(self.list_type(), self.side(), self@),
    {
        let pops = heap_pops(self.heap);
        assert forall|i: int, j: int| 0 <= i < j < self@.len() implies (
        #[trigger] self@[i]).signature() != (#[trigger] self@[j]).signature() && priority(
            self.node_type,
            self.sub_type,
            self@[i].order,
        ) >= priority(self.node_type, self.sub_type, self@[j].order) by {
            assert(pops[i].0 != pops[j].0);
            assert(pops[i].1 >= pops[j].1);
        }
    }

    /// Makes an empty queue.
    pub fn new(node_type: NodeType, sub_type: SubType) -> (queue: OrderQueue)
        ensures
            queue.wf(),
            queue.list_type() == node_type,
            queue.side() == sub_type,
            queue@ == Seq::<Node>::empty(),
    {
        let queue = OrderQueue {
            node_type,
            sub_type,
            heap: heap_new(),
            nodes: StringHashMap::new(),
        };
        assert(queue@ =~= Seq::<Node>::empty());
        queue
    }

    /// Counts the nodes.
    pub fn len(&self) -> (len: usize)
        ensures
            len == self@.len(),
    {
        heap_len(&self.heap)
    }

    fn get_priority(&self, order: &Order) -> (rank: i128)
        ensures
            rank == priority(self.node_type, self.sub_type, *order),
    {
        let value: i128 = match self.node_type {
            NodeType::TakingLimit | NodeType::Market => order.slot as i128,
            NodeType::RestingLimit => order.price as i128,
            NodeType::FloatingLimit => order.oracle_price_offset as i128,
            NodeType::Trigger => order.trigger_price as i128,
        };
        let is_ascending = match self.node_type {
            NodeType::TakingLimit | NodeType::Market => true,
            NodeType::RestingLimit | NodeType::FloatingLimit => self.sub_type == SubType::Ask,
            NodeType::Trigger => self.sub_type == SubType::Bid,
        };
        if is_ascending {
            -value
        } else {
            value
        }
    }

    /// Puts a node into the queue, in the place of one with its signature.
    pub fn insert(&mut self, node: Node)
        requires
            old(self).wf(),
        ensures
            final(self).wf(),
            final(self).list_type() == old(self).list_type(),
            final(self).side() == old(self).side(),
            inserted(old(self).list_type(), old(self).side(), old(self)@, node, final(self)@),
            text_spells(node.user_account),
    {
        let signature = get_order_signature(node.order.order_id, node.user_account);
        let rank: i128 = self.get_priority(&node.order);
        heap_push(&mut self.heap, signature.clone(), rank);
        self.nodes.insert(signature, node);
        proof {
            lemma_insert(old(self), node, rank, self);
        }
    }

    /// Finds the node with a signature.
    pub fn get(&self, signature: &str) -> (node: Option<&Node>)
        requires
            self.wf(),
        ensures
            match node {
                Some(n) => self@.contains(*n) && n.signature() == signature@,
                None => !holds(self@, signature@),
            },
    {
        let node = self.nodes.get(signature);
        proof {
            let pops = heap_pops(self.heap);
            match node {
                Some(n) => {
                    let i = choose|i: int|
                        0 <= i < pops.len() && (#[trigger] pops[i]).0 == signature@;
                    assert(self@[i] == *n);
                },
                None => {
                    if holds(self@, signature@) {
                        let i = choose|i: int|
                            0 <= i < self@.len() && (#[trigger] self@[i]).signature() == signature@;
                        assert(pops[i].0 == signature@);
                    }
                },
            }
        }
        node
    }

    /// Writes an order into the node with its signature, if there is one.
    pub fn update(&mut self, order: &Order, user_account: &Pubkey)
        requires
            old(self).wf(),
        ensures
            final(self).wf(),
            final(self).list_type() == old(self).list_type(),
            final(self).side() == old(self).side(),
            replaced(
                old(self).list_type(),
                old(self).side(),
                old(self)@,
                Node { order: *order, user_account: *user_account },
                final(self)@,
            ),
            text_spells(*user_account),
    {
        let signature = get_order_signature(order.order_id, *user_account);
        if self.get(signature.as_str()).is_some() {
            assert(holds(self@, signature@));
            self.insert(Node { order: *order, user_account: *user_account });
        }
    }

    /// Lists the nodes, the one of the greatest priority first.
    pub fn to_vec(&self) -> (nodes: Vec<Node>)
        requires
            self.wf(),
        ensures
            nodes@ == self@,
    {
        let mut heap = heap_clone(&self.heap);
        let mut nodes: Vec<Node> = Vec::new();
        let ghost pops = heap_pops(self.heap);
        assert(pops.skip(0) =~= pops);
        while heap_len(&heap) > 0
            invariant
                self.wf(),
                pops == heap_pops(self.heap),
                nodes@.len() <= pops.len(),
                heap_pops(heap) == pops.skip(nodes@.len() as int),
                nodes@ == self@.take(nodes@.len() as int),
            decreases pops.len() - nodes@.len(),
        {
            assert(pops[nodes@.len() as int] == pops.skip(nodes@.len() as int)[0]);
            if let Some((key, _)) = heap_pop(&mut heap) {
                if let Some(node) = self.nodes.get(key.as_str()) {
                    nodes.push(*node);
                }
            }
            assert(nodes@ =~= self@.take(nodes@.len() as int));
            assert(heap_pops(heap) =~= pops.skip(nodes@.len() as int));
        }
        assert(nodes@ =~= self@);
        nodes
    }

    /// Lists the signatures of the nodes, in no set order.
    pub fn signatures(&self) -> (signatures: Vec<String>)
        requires
            self.wf(),
        ensures
            signatures@.len() == self@.len(),
            forall|i: int| 0 <= i < signatures@.len() ==> holds(self@, #[trigger] signatures@[i]@),
            forall|i: int, j: int|
                0 <= i < j < signatures@.len() ==> (#[trigger] signatures@[i])@ != (
                #[trigger] signatures@[j])@,
            forall|n: Node| #[trigger]
                self@.contains(n) ==> exists|j: int|
                    0 <= j < signatures@.len() && (#[trigger] signatures@[j])@ == n.signature(),
    {
        let signatures = heap_keys(&self.heap);
        proof {
            let pops = heap_pops(self.heap);
            assert forall|i: int| 0 <= i < signatures@.len() implies holds(
                self@,
                #[trigger] signatures@[i]@,
            ) by {
                assert(has_key(pops, signatures@[i]@));
                let k = choose|k: int|
                    0 <= k < pops.len() && (#[trigger] pops[k]).0 == signatures@[i]@;
                assert(self@[k].signature() == signatures@[i]@);
            }
            assert forall|n: Node| #[trigger] self@.contains(n) implies exists|j: int|
                0 <= j < signatures@.len() && (#[trigger] signatures@[j])@ == n.signature() by {
                let k = choose|k: int| 0 <= k < self@.len() && self@[k] == n;
                assert(pops[k].0 == n.signature());
            }
        }
        signatures
    }
}

impl Clone for OrderQueue {
    fn clone(&self) -> (copy: Self)
        ensures
            copy.list_type() == self.list_type(),
            copy.side() == self.side(),
            self.wf() ==> copy.wf() && copy@ == self@,
    {
        let keys = heap_keys(&self.heap);
        let mut nodes: StringHashMap<Node> = StringHashMap::new();
        let mut i: usize = 0;
        while i < keys.len()
            invariant
                i <= keys@.len(),
                forall|key: Seq<char>| #[trigger]
                    nodes@.contains_key(key) ==> self.nodes@.contains_key(key) && nodes@[key]
                        == self.nodes@[key],
                forall|j: int|
                    0 <= j < i && self.nodes@.contains_key((#[trigger] keys@[j])@)
                        ==> nodes@.contains_key(keys@[j]@),
            decreases keys@.len() - i,
        {
            if let Some(node) = self.nodes.get(keys[i].as_str()) {
                nodes.insert(keys[i].clone(), *node);
            }
            i += 1;
        }
        let copy = OrderQueue {
            node_type: self.node_type,
            sub_type: self.sub_type,
            heap: heap_clone(&self.heap),
            nodes,
        };
        proof {
            if self.wf() {
                let pops = heap_pops(self.heap);
                assert forall|k: int| 0 <= k < pops.len() implies copy.nodes@.contains_key(
                    (#[trigger] pops[k]).0,
                ) && copy.nodes@[pops[k].0] == self.nodes@[pops[k].0] by {
                    assert(self.nodes@.contains_key(pops[k].0));
                    let j = choose|j: int|
                        0 <= j < keys@.len() && (#[trigger] keys@[j])@ == pops[k].0;
                    assert(copy.nodes@.contains_key(keys@[j]@));
                }
                assert(copy@ =~= self@);
                assert(copy.wf());
            }
        }
        copy
    }
}

proof fn lemma_insert(before: &OrderQueue, node: Node, rank: i128, after: &OrderQueue)
    requires
        before.wf(),
        after.node_type == before.node_type,
        after.sub_type == before.sub_type,
        rank == priority(before.node_type, before.sub_type, node.order),
        pushed(heap_pops(before.heap), node.signature(), rank, heap_pops(after.heap)),
        after.nodes@ == before.nodes@.insert(node.signature(), node),
    ensures
        after.wf(),
        inserted(before.node_type, before.sub_type, before@, node, after@),
{
    let s = heap_pops(before.heap);
    let t = heap_pops(after.heap);
    let key = node.signature();
    assert forall|i: int| 0 <= i < t.len() implies after.nodes@.contains_key((#[trigger] t[i]).0)
        && after.nodes@[t[i].0].signature() == t[i].0 && priority(
        after.node_type,
        after.sub_type,
        after.nodes@[t[i].0].order,
    ) == t[i].1 by {
        assert(t.contains(t[i]));
        if t[i] != (key, rank) {
            assert(s.contains(t[i]));
            let j = choose|j: int| 0 <= j < s.len() && s[j] == t[i];
            assert(before.nodes@.contains_key(s[j].0));
        }
    }
    assert forall|k: Seq<char>| #[trigger] after.nodes@.contains_key(k) implies has_key(t, k) by {
        if k == key {
            assert(t.contains((key, rank)));
            let i = choose|i: int| 0 <= i < t.len() && t[i] == (key, rank);
            assert(t[i].0 == k);
        } else {
            assert(before.nodes@.contains_key(k));
            let j = choose|j: int| 0 <= j < s.len() && (#[trigger] s[j]).0 == k;
            assert(s.contains(s[j]));
            assert(t.contains(s[j]));
            let i = choose|i: int| 0 <= i < t.len() && t[i] == s[j];
            assert(t[i].0 == k);
        }
    }
    assert(after.wf());
    after.lemma_is_queue();
    assert forall|n: Node| #[trigger] after@.contains(n) <==> n == node || (before@.contains(n)
        && n.signature() != key) by {
        if after@.contains(n) {
            let i = choose|i: int| 0 <= i < after@.len() && after@[i] == n;
            assert(t.contains(t[i]));
            if t[i] != (key, rank) {
                let j = choose|j: int| 0 <= j < s.len() && s[j] == t[i];
                assert(before@[j] == n);
            }
        }
        if n == node {
            assert(t.contains((key, rank)));
            let i = choose|i: int| 0 <= i < t.len() && t[i] == (key, rank);
            assert(after@[i] == node);
        } else if before@.contains(n) && n.signature() != key {
            let j = choose|j: int| 0 <= j < before@.len() && before@[j] == n;
            assert(s[j].0 == n.signature());
            assert(s.contains(s[j]));
            assert(t.contains(s[j]));
            let i = choose|i: int| 0 <= i < t.len() && t[i] == s[j];
            assert(after@[i] == n);
        }
    }
    assert(holds(before@, key) == has_key(s, key)) by {
        if has_key(s, key) {
            let j = choose|j: int| 0 <= j < s.len() && (#[trigger] s[j]).0 == key;
            assert(before@[j].signature() == key);
        }
        if holds(before@, key) {
            let j = choose|j: int| 0 <= j < before@.len() && (#[trigger] before@[j]).signature()
                == key;
            assert(s[j].0 == key);
        }
    }
    assert forall|i: int|
        0 <= i < before@.len() && (#[trigger] before@[i]).signature() == key && priority(
            before.node_type,
            before.sub_type,
            before@[i].order,
        ) == rank implies after@ == before@.update(i, node) by {
        assert(s[i] == (key, rank));
        assert(s.contains((key, rank)));
        assert(t == s);
        assert(after@ =~= before@.update(i, node));
    }
}

} // verus!
