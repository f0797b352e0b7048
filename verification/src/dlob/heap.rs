//! The binary heap that ranks orders: signatures keyed to integer priorities,
//! the greatest priority first. Everything here that carries a contract without
//! a proof calls `mut_binary_heap::BinaryHeap`.

use vstd::prelude::*;

use mut_binary_heap::{BinaryHeap, MaxComparator};

verus! {

#[verifier::external_type_specification]
#[verifier::external_body]
pub struct ExMaxComparator(MaxComparator);

#[verifier::external_type_specification]
#[verifier::external_body]
#[verifier::reject_recursive_types(K)]
#[verifier::reject_recursive_types(T)]
#[verifier::reject_recursive_types(C)]
pub struct ExBinaryHeap<K, T, C>(BinaryHeap<K, T, C>);

/// What a heap holds, as pairs of key and priority in the order in which
/// popping until the heap is empty hands them out.
pub uninterp spec fn heap_pops(heap: BinaryHeap<String, i128, MaxComparator>) -> Seq<
    (Seq<char>, i128),
>;

/// Whether no key occurs twice and no pair has a greater priority than one
/// before it.
pub open spec fn ranked(pairs: Seq<(Seq<char>, i128)>) -> bool {
    &&& forall|i: int, j: int| 0 <= i < j < pairs.len() ==> (#[trigger] pairs[i]).0 != (
    #[trigger] pairs[j]).0
    &&& forall|i: int, j: int| 0 <= i < j < pairs.len() ==> (#[trigger] pairs[i]).1 >= (
    #[trigger] pairs[j]).1
}

/// Whether `key` is the key of one of the pairs.
pub open spec fn has_key(pairs: Seq<(Seq<char>, i128)>, key: Seq<char>) -> bool {
    exists|i: int| 0 <= i < pairs.len() && (#[trigger] pairs[i]).0 == key
}

/// Whether `after` ranks the pairs of `before` with `key` set to `priority`.
/// Where `key` had that priority already nothing moves.
pub open spec fn pushed(
    before: Seq<(Seq<char>, i128)>,
    key: Seq<char>,
    priority: i128,
    after: Seq<(Seq<char>, i128)>,
) -> bool {
    &&& ranked(after)
    &&& forall|pair: (Seq<char>, i128)| #[trigger]
        after.contains(pair) <==> pair == (key, priority) || (before.contains(pair) && pair.0
            != key)
    &&& after.len() == before.len() + if has_key(before, key) {
        0int
    } else {
        1int
    }
    &&& before.contains((key, priority)) ==> after == before
}

/// Makes an empty heap, by `BinaryHeap::new`.
///
/// Trusted: the heap holds nothing.
#[verifier::external_body]
pub(crate) fn heap_new() -> (heap: BinaryHeap<String, i128, MaxComparator>)
    ensures
        heap_pops(heap).len() == 0,
{
    BinaryHeap::new()
}

/// Sets the priority of a key, by `BinaryHeap::push`.
///
/// Trusted: a key that the heap has gets the new priority, one that it lacks is
/// added, and the other pairs stay. A key whose priority is not changed stays
/// where it is. Which of two pairs of one priority is popped first is left open.
#[verifier::external_body]
pub(crate) fn heap_push(
    heap: &mut BinaryHeap<String, i128, MaxComparator>,
    key: String,
    priority: i128,
)
    requires
        ranked(heap_pops(*old(heap))),
    ensures
        pushed(heap_pops(*old(heap)), key@, priority, heap_pops(*final(heap))),
{
    heap.push(key, priority);
}

/// Takes out the key with the greatest priority, by `BinaryHeap::pop_with_key`.
///
/// Trusted: an empty heap stays as it is and gives nothing; another gives the
/// pair that comes first and keeps the rest in their order.
#[verifier::external_body]
pub(crate) fn heap_pop(heap: &mut BinaryHeap<String, i128, MaxComparator>) -> (popped: Option<
    (String, i128),
>)
    ensures
        match popped {
            Some((key, priority)) => heap_pops(*old(heap)).len() > 0 && heap_pops(*old(heap))[0]
                == (key@, priority) && heap_pops(*final(heap)) == heap_pops(
                *old(heap),
            ).drop_first(),
            None => heap_pops(*old(heap)).len() == 0 && *final(heap) == *old(heap),
        },
{
    heap.pop_with_key()
}

/// Copies a heap, by the `clone` of `BinaryHeap`.
///
/// Trusted: the copy holds the same pairs in the same arrangement, so they are
/// popped in the same order.
#[verifier::external_body]
pub(crate) fn heap_clone(heap: &BinaryHeap<String, i128, MaxComparator>) -> (copy: BinaryHeap<
    String,
    i128,
    MaxComparator,
>)
    ensures
        heap_pops(copy) == heap_pops(*heap),
{
    heap.clone()
}

/// Counts the pairs of a heap, by `BinaryHeap::len`.
///
/// Trusted: every pair counts once.
#[verifier::external_body]
pub(crate) fn heap_len(heap: &BinaryHeap<String, i128, MaxComparator>) -> (len: usize)
    ensures
        len == heap_pops(*heap).len(),
{
    heap.len()
}

/// Lists the keys of a heap, by `BinaryHeap::iter`.
///
/// Trusted: every key is listed once. In which order is left open.
#[verifier::external_body]
pub(crate) fn heap_keys(heap: &BinaryHeap<String, i128, MaxComparator>) -> (keys: Vec<String>)
    ensures
        keys@.len() == heap_pops(*heap).len(),
        forall|i: int| 0 <= i < keys@.len() ==> has_key(heap_pops(*heap), #[trigger] keys@[i]@),
        forall|i: int, j: int|
            0 <= i < j < keys@.len() ==> (#[trigger] keys@[i])@ != (#[trigger] keys@[j])@,
        forall|i: int|
            0 <= i < heap_pops(*heap).len() ==> exists|j: int|
                0 <= j < keys@.len() && (#[trigger] keys@[j])@ == (#[trigger] heap_pops(
                    *heap,
                )[i]).0,
{
    heap.iter().map(|(key, _)| key.clone()).collect()
}

} // verus!
