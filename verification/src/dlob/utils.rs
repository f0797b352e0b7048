//! Who makes and who takes in a match, and the merging of nodes to fill.

use vstd::hash_map::StringHashMap;
use vstd::prelude::*;

use crate::dlob::node::{fills, get_order_signature, Fill, Node, NodeToFill};
use crate::types::Order;

verus! {

/// The slot in which the auction of an order ends.
pub open spec fn auction_end_slot(order: Order) -> int {
    order.slot + order.auction_duration
}

/// The maker and the taker of a match, in this order, or nothing where both
/// orders are post-only. With one post-only order it is the second of the pair.
/// Else the order whose auction ends first is, the ask where both end together.
pub open spec fn maker_and_taker(ask: Node, bid: Node) -> Option<(Node, Node)> {
    if bid.order.post_only && ask.order.post_only {
        None
    } else if bid.order.post_only {
        Some((ask, bid))
    } else if ask.order.post_only {
        Some((bid, ask))
    } else if auction_end_slot(ask.order) <= auction_end_slot(bid.order) {
        Some((bid, ask))
    } else {
        Some((ask, bid))
    }
}

/// Gives the maker and the taker of a match, in this order, or nothing where
/// neither order may take.
pub fn determine_maker_and_taker(ask: &Node, bid: &Node) -> (pair: Option<(Node, Node)>)
    requires
        auction_end_slot(ask.order) <= u64::MAX,
        auction_end_slot(bid.order) <= u64::MAX,
    ensures
        pair == maker_and_taker(*ask, *bid),
{
    let ask_slot: u64 = ask.order.slot + ask.order.auction_duration as u64;
    let bid_slot: u64 = bid.order.slot + bid.order.auction_duration as u64;

    if bid.order.post_only && ask.order.post_only {
        None
    } else if bid.order.post_only {
        Some((*ask, *bid))
    } else if ask.order.post_only {
        Some((*bid, *ask))
    } else if ask_slot <= bid_slot {
        Some((*bid, *ask))
    } else {
        Some((*ask, *bid))
    }
}

/// A match is between the two nodes at hand, one on each side of it.
pub proof fn lemma_maker_and_taker_are_the_pair(ask: Node, bid: Node)
    ensures
        maker_and_taker(ask, bid) is None <==> bid.order.post_only && ask.order.post_only,
        maker_and_taker(ask, bid) matches Some((maker, taker)) ==> (maker == ask && taker == bid)
            || (maker == bid && taker == ask),
{
}

/// Whether the signature is that of one of the nodes to fill.
pub open spec fn names(nodes: Seq<Fill>, signature: Seq<char>) -> bool {
    exists|i: int| 0 <= i < nodes.len() && (#[trigger] nodes[i]).node.signature() == signature
}

/// Where the node to fill with a signature stands.
pub open spec fn place_of(nodes: Seq<Fill>, signature: Seq<char>) -> int {
    choose|i: int| 0 <= i < nodes.len() && (#[trigger] nodes[i]).node.signature() == signature
}

/// The nodes to fill with one more: its makers join those of the node with its
/// signature, or it goes to the end where there is none.
pub open spec fn merged_with(nodes: Seq<Fill>, next: Fill) -> Seq<Fill> {
    let signature = next.node.signature();
    if names(nodes, signature) {
        let i = place_of(nodes, signature);
        nodes.update(i, Fill { node: nodes[i].node, makers: nodes[i].makers + next.makers })
    } else {
        nodes.push(next)
    }
}

/// The nodes to fill, each signature once, in the order of their first
/// occurrences.
pub open spec fn merged(nodes: Seq<Fill>) -> Seq<Fill>
    decreases nodes.len(),
{
    if nodes.len() == 0 {
        nodes
    } else {
        merged_with(merged(nodes.drop_last()), nodes.last())
    }
}

/// The makers that are listed with a signature, in their order.
pub open spec fn makers_listed(nodes: Seq<Fill>, signature: Seq<char>) -> Seq<Node>
    decreases nodes.len(),
{
    if nodes.len() == 0 {
        Seq::empty()
    } else if nodes.last().node.signature() == signature {
        makers_listed(nodes.drop_last(), signature) + nodes.last().makers
    } else {
        makers_listed(nodes.drop_last(), signature)
    }
}

/// Whether no signature occurs twice.
pub open spec fn named_once(nodes: Seq<Fill>) -> bool {
    forall|i: int, j: int|
        0 <= i < j < nodes.len() ==> (#[trigger] nodes[i]).node.signature() != (
        #[trigger] nodes[j]).node.signature()
}

/// Whether no node before the one at `i` has its signature.
pub open spec fn occurs_first(nodes: Seq<Fill>, i: int) -> bool {
    forall|k: int| 0 <= k < i ==> (#[trigger] nodes[k]).node.signature() != nodes[i].node.signature()
}

/// Whether `node` is the first node with its signature.
pub open spec fn is_first_node(nodes: Seq<Fill>, node: Node) -> bool {
    exists|i: int| 0 <= i < nodes.len() && nodes[i].node == node && #[trigger] occurs_first(nodes, i)
}

/// Merging keeps each signature once, loses none and invents none, gives it all
/// the makers that were listed with it, and keeps the node of its first
/// occurrence.
pub proof fn lemma_merged(nodes: Seq<Fill>)
    ensures
        named_once(merged(nodes)),
        forall|signature: Seq<char>| #[trigger]
            names(merged(nodes), signature) <==> names(nodes, signature),
        forall|i: int|
            0 <= i < merged(nodes).len() ==> (#[trigger] merged(nodes)[i]).makers == makers_listed(
                nodes,
                merged(nodes)[i].node.signature(),
            ),
        forall|i: int|
            0 <= i < merged(nodes).len() ==> is_first_node(
                nodes,
                (#[trigger] merged(nodes)[i]).node,
            ),
{
    lemma_merged_names(nodes);
    lemma_merged_makers(nodes);
    lemma_merged_first(nodes);
}

proof fn lemma_merged_with(before: Seq<Fill>, next: Fill)
    requires
        named_once(before),
    ensures
        named_once(merged_with(before, next)),
        forall|s: Seq<char>| #[trigger]
            names(merged_with(before, next), s) <==> names(before, s) || s == next.node.signature(),
        merged_with(before, next).len() >= before.len(),
        forall|i: int|
            0 <= i < before.len() ==> (#[trigger] merged_with(before, next)[i]).node
                == before[i].node,
        forall|i: int|
            before.len() <= i < merged_with(before, next).len() ==> #[trigger] merged_with(
                before,
                next,
            )[i] == next && !names(before, next.node.signature()),
        forall|i: int|
            0 <= i < before.len() ==> (#[trigger] merged_with(before, next)[i]).makers
                == before[i].makers + if before[i].node.signature() == next.node.signature() {
                next.makers
            } else {
                Seq::empty()
            },
{
    let after = merged_with(before, next);
    let signature = next.node.signature();
    if names(before, signature) {
        let p = place_of(before, signature);
        assert(before[p].node.signature() == signature);
        assert forall|i: int| 0 <= i < before.len() implies (#[trigger] after[i]).makers
            == before[i].makers + if before[i].node.signature() == signature {
            next.makers
        } else {
            Seq::empty()
        } by {
            if i != p {
                assert(before[i].node.signature() != before[p].node.signature());
                assert(before[i].makers + Seq::<Node>::empty() =~= before[i].makers);
            }
        }
    } else {
        assert forall|i: int| 0 <= i < before.len() implies (#[trigger] after[i]).makers
            == before[i].makers + if before[i].node.signature() == signature {
            next.makers
        } else {
            Seq::empty()
        } by {
            assert(before[i].node.signature() != signature);
            assert(before[i].makers + Seq::<Node>::empty() =~= before[i].makers);
        }
    }
    assert forall|s: Seq<char>| #[trigger] names(after, s) <==> names(before, s) || s
        == signature by {
        if names(before, s) {
            let i = choose|i: int|
                0 <= i < before.len() && (#[trigger] before[i]).node.signature() == s;
            assert(after[i].node.signature() == s);
        } else if s == signature {
            assert(after[before.len() as int].node.signature() == s);
        }
        if names(after, s) {
            let i = choose|i: int|
                0 <= i < after.len() && (#[trigger] after[i]).node.signature() == s;
            if i < before.len() {
                assert(before[i].node.signature() == s);
            }
        }
    }
}

proof fn lemma_names_extend(nodes: Seq<Fill>)
    requires
        nodes.len() > 0,
    ensures
        forall|s: Seq<char>| #[trigger]
            names(nodes, s) <==> names(nodes.drop_last(), s) || s == nodes.last().node.signature(),
{
    let rest = nodes.drop_last();
    assert forall|s: Seq<char>| #[trigger] names(nodes, s) <==> names(rest, s) || s
        == nodes.last().node.signature() by {
        if names(rest, s) {
            let i = choose|i: int| 0 <= i < rest.len() && (#[trigger] rest[i]).node.signature() == s;
            assert(nodes[i].node.signature() == s);
        } else if s == nodes.last().node.signature() {
            assert(nodes[nodes.len() - 1].node.signature() == s);
        }
        if names(nodes, s) {
            let i = choose|i: int|
                0 <= i < nodes.len() && (#[trigger] nodes[i]).node.signature() == s;
            if i < rest.len() {
                assert(rest[i].node.signature() == s);
            }
        }
    }
}

proof fn lemma_merged_names(nodes: Seq<Fill>)
    ensures
        named_once(merged(nodes)),
        forall|s: Seq<char>| #[trigger] names(merged(nodes), s) <==> names(nodes, s),
    decreases nodes.len(),
{
    if nodes.len() > 0 {
        lemma_merged_names(nodes.drop_last());
        lemma_merged_with(merged(nodes.drop_last()), nodes.last());
        lemma_names_extend(nodes);
    }
}

proof fn lemma_merged_makers(nodes: Seq<Fill>)
    ensures
        forall|i: int|
            0 <= i < merged(nodes).len() ==> (#[trigger] merged(nodes)[i]).makers == makers_listed(
                nodes,
                merged(nodes)[i].node.signature(),
            ),
    decreases nodes.len(),
{
    if nodes.len() > 0 {
        let rest = nodes.drop_last();
        let before = merged(rest);
        let after = merged(nodes);
        lemma_merged_names(rest);
        lemma_merged_makers(rest);
        lemma_merged_with(before, nodes.last());
        assert forall|i: int| 0 <= i < after.len() implies (#[trigger] after[i]).makers
            == makers_listed(nodes, after[i].node.signature()) by {
            if i < before.len() {
                assert(before[i].makers == makers_listed(rest, before[i].node.signature()));
                assert(makers_listed(rest, before[i].node.signature()) + Seq::<Node>::empty()
                    =~= makers_listed(rest, before[i].node.signature()));
            } else {
                lemma_no_makers_listed(rest, after[i].node.signature());
                assert(Seq::<Node>::empty() + nodes.last().makers =~= nodes.last().makers);
            }
        }
    }
}

proof fn lemma_merged_first(nodes: Seq<Fill>)
    ensures
        forall|i: int|
            0 <= i < merged(nodes).len() ==> is_first_node(
                nodes,
                (#[trigger] merged(nodes)[i]).node,
            ),
    decreases nodes.len(),
{
    if nodes.len() > 0 {
        let rest = nodes.drop_last();
        let before = merged(rest);
        let after = merged(nodes);
        lemma_merged_names(rest);
        lemma_merged_first(rest);
        lemma_merged_with(before, nodes.last());
        assert forall|i: int| 0 <= i < after.len() implies is_first_node(
            nodes,
            (#[trigger] after[i]).node,
        ) by {
            if i < before.len() {
                assert(is_first_node(rest, before[i].node));
                let j = choose|j: int|
                    0 <= j < rest.len() && rest[j].node == before[i].node
                        && #[trigger] occurs_first(rest, j);
                assert forall|k: int| 0 <= k < j implies (#[trigger] nodes[k]).node.signature()
                    != nodes[j].node.signature() by {
                    assert(rest[k].node.signature() != rest[j].node.signature());
                }
                assert(occurs_first(nodes, j));
            } else {
                let j = nodes.len() - 1;
                assert forall|k: int| 0 <= k < j implies (#[trigger] nodes[k]).node.signature()
                    != nodes[j].node.signature() by {
                    assert(!names(rest, nodes.last().node.signature())) by {
                        assert(names(before, nodes.last().node.signature()) == names(
                            rest,
                            nodes.last().node.signature(),
                        ));
                    }
                    assert(rest[k].node.signature() == nodes[k].node.signature());
                }
                assert(occurs_first(nodes, j));
            }
        }
    }
}

proof fn lemma_no_makers_listed(nodes: Seq<Fill>, signature: Seq<char>)
    requires
        !names(nodes, signature),
    ensures
        makers_listed(nodes, signature) == Seq::<Node>::empty(),
    decreases nodes.len(),
{
    if nodes.len() > 0 {
        let rest = nodes.drop_last();
        assert(nodes[nodes.len() - 1].node.signature() != signature);
        if names(rest, signature) {
            let j = choose|j: int|
                0 <= j < rest.len() && (#[trigger] rest[j]).node.signature() == signature;
            assert(nodes[j].node.signature() == signature);
        }
        lemma_no_makers_listed(rest, signature);
    }
}

/// Merges one more node to fill into a list that `places` indexes.
fn merge_node(nodes: &mut Vec<NodeToFill>, places: &mut StringHashMap<usize>, next: NodeToFill)
    requires
        indexed(old(nodes)@, old(places)@),
    ensures
        indexed(final(nodes)@, final(places)@),
        fills(final(nodes)@) == merged_with(fills(old(nodes)@), next@),
{
    let signature = get_order_signature(next.node.order.order_id, next.node.user_account);
    let ghost before = fills(nodes@);
    match places.get(signature.as_str()) {
        Some(place) => {
            let place: usize = *place;
            assert(before[place as int].node.signature() == signature@);
            assert(place_of(before, signature@) == place) by {
                let p = place_of(before, signature@);
                assert(before[p].node.signature() == signature@);
                assert(nodes@[p].node.signature() == signature@);
            }
            let mut makers = next.maker_nodes;
            let ghost added = makers@;
            let kept = &mut nodes[place].maker_nodes;
            kept.append(&mut makers);
            assert(fills(nodes@) =~= merged_with(before, next@));
        },
        None => {
            assert(!names(before, signature@)) by {
                if names(before, signature@) {
                    let i = choose|i: int|
                        0 <= i < before.len() && (#[trigger] before[i]).node.signature()
                            == signature@;
                    assert(nodes@[i].node.signature() == signature@);
                }
            }
            places.insert(signature, nodes.len());
            nodes.push(next);
            assert(fills(nodes@) =~= before.push(next@));
        },
    }
}

/// Whether `places` says where the node with each signature stands.
spec fn indexed(nodes: Seq<NodeToFill>, places: Map<Seq<char>, usize>) -> bool {
    &&& forall|i: int|
        0 <= i < nodes.len() ==> places.contains_key((#[trigger] nodes[i]).node.signature())
            && places[nodes[i].node.signature()] == i
    &&& forall|signature: Seq<char>| #[trigger]
        places.contains_key(signature) ==> places[signature] < nodes.len()
            && nodes[places[signature] as int].node.signature() == signature
}

/// Merges two lists of nodes to fill: each signature is kept once, with the
/// node of its first occurrence and the makers of all of them. The nodes come
/// in the order of their first occurrences.
pub fn merge_and_deduplicate_nodes(nodes_a: Vec<NodeToFill>, nodes_b: Vec<NodeToFill>) -> (result:
    Vec<NodeToFill>)
    ensures
        fills(result@) == merged(fills(nodes_a@) + fills(nodes_b@)),
{
    let mut all_nodes = nodes_a;
    let mut others = nodes_b;
    all_nodes.append(&mut others);
    let ghost all = fills(nodes_a@) + fills(nodes_b@);
    let ghost total = all_nodes@;
    assert(fills(all_nodes@) =~= all);

    let mut result: Vec<NodeToFill> = Vec::new();
    let mut places: StringHashMap<usize> = StringHashMap::new();
    let mut i: usize = 0;
    assert(fills(result@) =~= merged(all.take(0)));
    while i < all_nodes.len()
        invariant
            i <= all_nodes@.len(),
            fills(all_nodes@) == all,
            indexed(result@, places@),
            fills(result@) == merged(all.take(i as int)),
        decreases all_nodes@.len() - i,
    {
        let next = NodeToFill {
            node: all_nodes[i].node,
            maker_nodes: all_nodes[i].maker_nodes.clone(),
        };
        assert(next.maker_nodes@ =~= all_nodes@[i as int].maker_nodes@);
        merge_node(&mut result, &mut places, next);
        assert(all.take(i + 1).drop_last() =~= all.take(i as int));
        assert(all.take(i + 1).last() == next@);
        i += 1;
    }
    assert(all.take(i as int) =~= all);
    result
}

} // verus!
