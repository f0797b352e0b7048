//! Sorting of nodes by a rank, the smallest first. Of two nodes of one rank
//! the one that was listed later comes first.

use vstd::prelude::*;

use crate::dlob::node::Node;

verus! {

/// Where a node of rank `value` goes in a list that is sorted: behind the last
/// node of a smaller rank.
pub open spec fn rank_position(nodes: Seq<Node>, rank: spec_fn(Node) -> int, value: int) -> int
    decreases nodes.len(),
{
    if nodes.len() == 0 {
        0
    } else if rank(nodes.last()) >= value {
        rank_position(nodes.drop_last(), rank, value)
    } else {
        nodes.len() as int
    }
}

/// The nodes, sorted by rank.
pub open spec fn rank_sorted(nodes: Seq<Node>, rank: spec_fn(Node) -> int) -> Seq<Node>
    decreases nodes.len(),
{
    if nodes.len() == 0 {
        nodes
    } else {
        let sorted = rank_sorted(nodes.drop_last(), rank);
        sorted.insert(rank_position(sorted, rank, rank(nodes.last())), nodes.last())
    }
}

/// Whether no node has a smaller rank than one before it.
pub open spec fn in_rank_order(nodes: Seq<Node>, rank: spec_fn(Node) -> int) -> bool {
    forall|i: int, j: int|
        0 <= i < j < nodes.len() ==> rank(#[trigger] nodes[i]) <= rank(#[trigger] nodes[j])
}

/// The node before the position has a smaller rank, and none behind it does.
pub proof fn lemma_rank_position(nodes: Seq<Node>, rank: spec_fn(Node) -> int, value: int)
    ensures
        0 <= rank_position(nodes, rank, value) <= nodes.len(),
        forall|i: int|
            rank_position(nodes, rank, value) <= i < nodes.len() ==> rank(#[trigger] nodes[i])
                >= value,
        rank_position(nodes, rank, value) > 0 ==> rank(
            nodes[rank_position(nodes, rank, value) - 1],
        ) < value,
    decreases nodes.len(),
{
    if nodes.len() > 0 && rank(nodes.last()) >= value {
        let rest = nodes.drop_last();
        lemma_rank_position(rest, rank, value);
        assert forall|i: int|
            rank_position(nodes, rank, value) <= i < nodes.len() implies rank(#[trigger] nodes[i])
            >= value by {
            if i < rest.len() {
                assert(nodes[i] == rest[i]);
            }
        }
    }
}

/// Sorting keeps every node, and how often it occurs, and puts the nodes in
/// the order of their ranks.
pub proof fn lemma_rank_sorted(nodes: Seq<Node>, rank: spec_fn(Node) -> int)
    ensures
        in_rank_order(rank_sorted(nodes, rank), rank),
        rank_sorted(nodes, rank).to_multiset() == nodes.to_multiset(),
        rank_sorted(nodes, rank).len() == nodes.len(),
        forall|n: Node| #[trigger] rank_sorted(nodes, rank).contains(n) <==> nodes.contains(n),
    decreases nodes.len(),
{
    broadcast use vstd::seq_lib::group_to_multiset_ensures;

    if nodes.len() > 0 {
        let rest = nodes.drop_last();
        let last = nodes.last();
        let sorted = rank_sorted(rest, rank);
        let position = rank_position(sorted, rank, rank(last));
        let result = rank_sorted(nodes, rank);
        lemma_rank_sorted(rest, rank);
        lemma_rank_position(sorted, rank, rank(last));
        assert(nodes =~= rest.push(last));
        assert forall|i: int, j: int| 0 <= i < j < result.len() implies rank(
            #[trigger] result[i],
        ) <= rank(#[trigger] result[j]) by {
            if i < position && position > 0 {
                assert(rank(sorted[i]) <= rank(sorted[position - 1]));
            }
        }
        assert(result.to_multiset() =~= sorted.to_multiset().insert(last)) by {
            vstd::seq_lib::to_multiset_insert(sorted, position, last);
        }
        assert forall|n: Node| #[trigger] result.contains(n) <==> nodes.contains(n) by {
            assert(result.to_multiset().count(n) == nodes.to_multiset().count(n));
        }
    }
}

/// Sorts nodes by the ranks given with them.
pub(crate) fn sort_by_rank(
    nodes: Vec<Node>,
    ranks: Vec<i128>,
    Ghost(rank): Ghost<spec_fn(Node) -> int>,
) -> (sorted: Vec<Node>)
    requires
        ranks@.len() == nodes@.len(),
        forall|i: int| 0 <= i < nodes@.len() ==> #[trigger] ranks@[i] == rank(nodes@[i]),
    ensures
        sorted@ == rank_sorted(nodes@, rank),
{
    let mut sorted: Vec<Node> = Vec::new();
    let mut sorted_ranks: Vec<i128> = Vec::new();
    let mut i: usize = 0;
    while i < nodes.len()
        invariant
            i <= nodes@.len(),
            ranks@.len() == nodes@.len(),
            forall|k: int| 0 <= k < nodes@.len() ==> #[trigger] ranks@[k] == rank(nodes@[k]),
            sorted@ == rank_sorted(nodes@.take(i as int), rank),
            sorted_ranks@.len() == sorted@.len(),
            forall|k: int| 0 <= k < sorted@.len() ==> #[trigger] sorted_ranks@[k] == rank(sorted@[k]),
        decreases nodes@.len() - i,
    {
        let value: i128 = ranks[i];
        let mut position: usize = sorted.len();
        assert(sorted@.take(position as int) =~= sorted@);
        while position > 0 && sorted_ranks[position - 1] >= value
            invariant
                position <= sorted@.len(),
                sorted_ranks@.len() == sorted@.len(),
                forall|k: int|
                    0 <= k < sorted@.len() ==> #[trigger] sorted_ranks@[k] == rank(sorted@[k]),
                rank_position(sorted@.take(position as int), rank, value as int) == rank_position(
                    sorted@,
                    rank,
                    value as int,
                ),
            decreases position,
        {
            assert(sorted@.take(position as int).drop_last() =~= sorted@.take(position - 1));
            assert(sorted@.take(position as int).last() == sorted@[position - 1]);
            position -= 1;
        }
        assert(rank_position(sorted@, rank, value as int) == position);
        sorted.insert(position, nodes[i]);
        sorted_ranks.insert(position, value);
        assert(nodes@.take(i + 1).drop_last() =~= nodes@.take(i as int));
        assert(nodes@.take(i + 1).last() == nodes@[i as int]);
        i += 1;
    }
    assert(nodes@.take(i as int) =~= nodes@);
    sorted
}

} // verus!
