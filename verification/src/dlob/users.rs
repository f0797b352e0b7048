//! What becomes of a book when the orders of all users are put into it.

use vstd::prelude::*;

use crate::dlob::book::{
    empty_book, lemma_with_market, lemma_with_queue, order_inserted, order_place, BookView, Place,
};
use crate::dlob::node::{
    lemma_signature_is_injective, order_signature, Node, NodeType, SubType,
};
use crate::dlob::order_queue::holds;
use crate::index::spells;
use crate::pubkey::{pubkey_of_text, pubkey_text, text_spells, Pubkey};
use crate::types::{MarketType, Order, OrderStatus};
use crate::usermap::AccountView;

verus! {

/// Whether `key` is the text of the address `account`.
pub open spec fn is_address(key: Seq<char>, account: Pubkey) -> bool {
    pubkey_of_text(key) == Some(account.bytes@)
}

/// Whether every key is the text of an address.
pub open spec fn keys_are_addresses(users: Map<Seq<char>, AccountView>) -> bool {
    forall|key: Seq<char>| #[trigger] users.contains_key(key) ==> pubkey_of_text(key) is Some
}

/// Whether `after` is the book `before` once an order of an account is put into
/// it. Where the order is unused the book stays as it is.
pub open spec fn used_order_inserted(
    before: BookView,
    order: Order,
    account: Pubkey,
    slot: u64,
    after: BookView,
) -> bool {
    if order.status == OrderStatus::Init {
        after == before
    } else {
        order_inserted(before, order, account, slot, after)
    }
}

/// Whether `after` is the book `before` once the orders of an account are put
/// into it, in turn.
pub open spec fn orders_inserted(
    before: BookView,
    orders: Seq<Order>,
    account: Pubkey,
    slot: u64,
    after: BookView,
) -> bool
    decreases orders.len(),
{
    if orders.len() == 0 {
        after == before
    } else {
        exists|between: BookView|
            orders_inserted(before, orders.drop_last(), account, slot, between)
                && #[trigger] used_order_inserted(between, orders.last(), account, slot, after)
    }
}

/// Whether `after` is the book `before` once the orders of the account whose
/// address is written `key`, and in no other way, are put into it.
pub open spec fn user_inserted(
    before: BookView,
    key: Seq<char>,
    orders: Seq<Order>,
    slot: u64,
    after: BookView,
) -> bool {
    exists|account: Pubkey| #[trigger]
        is_address(key, account) && key == pubkey_text(account.bytes@) && orders_inserted(
            before,
            orders,
            account,
            slot,
            after,
        )
}

/// Whether `after` is the book `before` once the orders of the users are put into
/// it, in the order of `walk`.
pub open spec fn users_inserted(
    before: BookView,
    users: Map<Seq<char>, AccountView>,
    walk: Seq<String>,
    slot: u64,
    after: BookView,
) -> bool
    decreases walk.len(),
{
    if walk.len() == 0 {
        after == before
    } else {
        exists|between: BookView|
            users_inserted(before, users, walk.drop_last(), slot, between)
                && #[trigger] user_inserted(
                between,
                walk.last()@,
                users[walk.last()@].orders,
                slot,
                after,
            )
    }
}

/// Whether there is a walk through the users that makes `before` into `after`.
pub open spec fn users_inserted_by_some_walk(
    before: BookView,
    users: Map<Seq<char>, AccountView>,
    slot: u64,
    after: BookView,
) -> bool {
    exists|walk: Seq<String>|
        spells(walk, users) && #[trigger] users_inserted(before, users, walk, slot, after)
}

/// Whether the order is found in some queue of the book.
pub open spec fn is_on(book: BookView, order_id: u32, account: Pubkey) -> bool {
    exists|place: Place|
        book.has(place) && holds(#[trigger] book.queue(place), order_signature(order_id, account))
}

/// Whether the order is found in some queue of the markets of a kind.
pub open spec fn on_kind(
    book: BookView,
    kind: MarketType,
    order_id: u32,
    account: Pubkey,
) -> bool {
    exists|place: Place|
        place.market_type == kind && book.has(place) && holds(
            #[trigger] book.queue(place),
            order_signature(order_id, account),
        )
}

/// Whether one of the markets of a kind has the order under that number and
/// account.
pub open spec fn offered(
    book: BookView,
    kind: MarketType,
    order_id: u32,
    account: Pubkey,
    order: Order,
) -> bool {
    exists|market_index: u16| #[trigger]
        book.has_market(kind, market_index) && book.market(kind, market_index).finds(
            order_signature(order_id, account),
            order,
        )
}

/// Whether a look for an order can come to `found`. It is found where it is on the
/// book, and only there, among the perp markets first.
pub open spec fn gives(
    book: BookView,
    order_id: u32,
    account: Pubkey,
    found: Option<Order>,
) -> bool {
    match found {
        Some(order) => offered(
            book,
            if on_kind(book, MarketType::Perp, order_id, account) {
                MarketType::Perp
            } else {
                MarketType::Spot
            },
            order_id,
            account,
            order,
        ),
        None => !is_on(book, order_id, account),
    }
}

/// Whether `book` is an empty book into which the orders of all users have been
/// put.
pub open spec fn built_from(
    users: Map<Seq<char>, AccountView>,
    slot: u64,
    book: BookView,
) -> bool {
    exists|filled: BookView| #[trigger]
        users_inserted_by_some_walk(
            empty_book(Map::<Seq<char>, Set<Seq<char>>>::empty(), false),
            users,
            slot,
            filled,
        ) && book == (BookView { initialized: true, ..filled })
}

/// An order that a market has is on the book.
pub proof fn lemma_offered_is_on(
    book: BookView,
    kind: MarketType,
    order_id: u32,
    account: Pubkey,
    order: Order,
)
    requires
        offered(book, kind, order_id, account, order),
    ensures
        on_kind(book, kind, order_id, account),
        is_on(book, order_id, account),
{
    let signature = order_signature(order_id, account);
    let index = choose|index: u16| #[trigger]
        book.has_market(kind, index) && book.market(kind, index).finds(signature, order);
    let (node_type, sub_type, node) = choose|node_type: NodeType, sub_type: SubType, node: Node|
     #[trigger]
        book.market(kind, index).queue(node_type, sub_type).contains(node) && node.signature()
            == signature && node.order == order && book.market(kind, index).first_with(
            signature,
            node_type,
            sub_type,
        );
    let place = Place { market_type: kind, market_index: index, node_type, sub_type };
    let queue = book.queue(place);
    assert(book.has(place) && queue.contains(node));
    let i = choose|i: int| 0 <= i < queue.len() && queue[i] == node;
    assert(queue[i].signature() == signature);
    assert(holds(queue, signature));
}

/// Putting an order into a book puts it on the book and takes none off it.
pub proof fn lemma_inserted_is_on(
    before: BookView,
    order: Order,
    account: Pubkey,
    slot: u64,
    after: BookView,
)
    requires
        order_inserted(before, order, account, slot, after),
    ensures
        is_on(after, order.order_id, account),
        holds(
            after.queue(order_place(order, slot)),
            order_signature(order.order_id, account),
        ),
        forall|order_id: u32, other: Pubkey| #[trigger]
            is_on(before, order_id, other) ==> is_on(after, order_id, other),
{
    let place = order_place(order, slot);
    let node = Node { order, user_account: account };
    let ready = before.with_market(order.market_type, order.market_index);
    lemma_with_market(before, order.market_type, order.market_index);
    lemma_with_queue(ready, place, after.queue(place));
    assert(after.has(place));
    assert(after.queue(place).contains(node));
    let i = choose|i: int| 0 <= i < after.queue(place).len() && after.queue(place)[i] == node;
    assert(after.queue(place)[i].signature() == order_signature(order.order_id, account));
    assert(holds(after.queue(place), order_signature(order.order_id, account)));
    assert forall|order_id: u32, other: Pubkey| #[trigger]
        is_on(before, order_id, other) implies is_on(after, order_id, other) by {
        let signature = order_signature(order_id, other);
        let p = choose|p: Place| before.has(p) && holds(#[trigger] before.queue(p), signature);
        assert(ready.has(p));
        assert(after.has(p));
        assert(ready.queue(p) == before.queue(p));
        if p == place {
            let k = choose|k: int|
                0 <= k < before.queue(p).len() && (#[trigger] before.queue(p)[k]).signature()
                    == signature;
            let kept = before.queue(p)[k];
            if signature != node.signature() {
                assert(ready.queue(p).contains(kept));
                assert(after.queue(p).contains(kept));
                let j = choose|j: int| 0 <= j < after.queue(p).len() && after.queue(p)[j] == kept;
                assert(after.queue(p)[j].signature() == signature);
            }
        } else {
            assert(after.queue(p) == ready.queue(p));
        }
        assert(holds(after.queue(p), signature));
    }
}

proof fn lemma_orders_are_on(
    before: BookView,
    orders: Seq<Order>,
    account: Pubkey,
    slot: u64,
    after: BookView,
)
    requires
        orders_inserted(before, orders, account, slot, after),
    ensures
        forall|i: int|
            0 <= i < orders.len() && (#[trigger] orders[i]).status != OrderStatus::Init ==> is_on(
                after,
                orders[i].order_id,
                account,
            ),
        forall|order_id: u32, other: Pubkey| #[trigger]
            is_on(before, order_id, other) ==> is_on(after, order_id, other),
    decreases orders.len(),
{
    if orders.len() > 0 {
        let between = choose|between: BookView|
            orders_inserted(before, orders.drop_last(), account, slot, between)
                && #[trigger] used_order_inserted(between, orders.last(), account, slot, after);
        lemma_orders_are_on(before, orders.drop_last(), account, slot, between);
        if orders.last().status != OrderStatus::Init {
            lemma_inserted_is_on(between, orders.last(), account, slot, after);
        }
        assert forall|i: int|
            0 <= i < orders.len() && (#[trigger] orders[i]).status
                != OrderStatus::Init implies is_on(after, orders[i].order_id, account) by {
            if i < orders.len() - 1 {
                assert(orders.drop_last()[i] == orders[i]);
            }
        }
    }
}

/// A book into which the orders of all users have been put has every order that is
/// in use.
pub proof fn lemma_users_are_on(
    before: BookView,
    users: Map<Seq<char>, AccountView>,
    walk: Seq<String>,
    slot: u64,
    after: BookView,
)
    requires
        users_inserted(before, users, walk, slot, after),
    ensures
        forall|k: int, i: int, account: Pubkey|
            0 <= k < walk.len() && 0 <= i < users[walk[k]@].orders.len() && #[trigger] is_address(
                walk[k]@,
                account,
            ) && (#[trigger] users[walk[k]@].orders[i]).status != OrderStatus::Init ==> is_on(
                after,
                users[walk[k]@].orders[i].order_id,
                account,
            ),
        forall|order_id: u32, other: Pubkey| #[trigger]
            is_on(before, order_id, other) ==> is_on(after, order_id, other),
    decreases walk.len(),
{
    if walk.len() > 0 {
        let key = walk.last()@;
        let between = choose|between: BookView|
            users_inserted(before, users, walk.drop_last(), slot, between)
                && #[trigger] user_inserted(between, key, users[key].orders, slot, after);
        lemma_users_are_on(before, users, walk.drop_last(), slot, between);
        let owner = choose|owner: Pubkey| #[trigger]
            is_address(key, owner) && key == pubkey_text(owner.bytes@) && orders_inserted(
                between,
                users[key].orders,
                owner,
                slot,
                after,
            );
        lemma_orders_are_on(between, users[key].orders, owner, slot, after);
        assert forall|k: int, i: int, account: Pubkey|
            0 <= k < walk.len() && 0 <= i < users[walk[k]@].orders.len() && #[trigger] is_address(
                walk[k]@,
                account,
            ) && (#[trigger] users[walk[k]@].orders[i]).status != OrderStatus::Init implies is_on(
            after,
            users[walk[k]@].orders[i].order_id,
            account,
        ) by {
            if k < walk.len() - 1 {
                assert(walk.drop_last()[k] == walk[k]);
                assert(is_on(between, users[walk[k]@].orders[i].order_id, account));
            } else {
                assert(account.bytes@ =~= owner.bytes@);
                assert(account.bytes =~= owner.bytes);
                assert(account == owner);
            }
        }
    }
}

/// A book that is built from the users has every order of theirs that is in use.
pub proof fn lemma_built_book_is_complete(
    users: Map<Seq<char>, AccountView>,
    slot: u64,
    book: BookView,
    key: Seq<char>,
    account: Pubkey,
    i: int,
)
    requires
        built_from(users, slot, book),
        users.contains_key(key),
        is_address(key, account),
        0 <= i < users[key].orders.len(),
        users[key].orders[i].status != OrderStatus::Init,
    ensures
        is_on(book, users[key].orders[i].order_id, account),
{
    let empty = empty_book(Map::<Seq<char>, Set<Seq<char>>>::empty(), false);
    let filled = choose|filled: BookView| #[trigger]
        users_inserted_by_some_walk(empty, users, slot, filled) && book == (BookView {
            initialized: true,
            ..filled
        });
    let walk = choose|walk: Seq<String>|
        spells(walk, users) && #[trigger] users_inserted(empty, users, walk, slot, filled);
    lemma_users_are_on(empty, users, walk, slot, filled);
    let k = choose|k: int| 0 <= k < walk.len() && (#[trigger] walk[k])@ == key;
    let order_id = users[key].orders[i].order_id;
    assert(is_address(walk[k]@, account));
    assert(users[walk[k]@].orders[i].status != OrderStatus::Init);
    assert(is_on(filled, order_id, account));
    let place = choose|place: Place|
        filled.has(place) && holds(
            #[trigger] filled.queue(place),
            order_signature(order_id, account),
        );
    assert(book.has(place));
    assert(book.queue(place) == filled.queue(place));
}

/// Whether a node is an order of one of the users that is in use, under the account
/// of that user.
pub open spec fn is_users(users: Map<Seq<char>, AccountView>, node: Node) -> bool {
    exists|key: Seq<char>, i: int|
        users.contains_key(key) && is_address(key, node.user_account) && 0 <= i
            < users[key].orders.len() && #[trigger] users[key].orders[i] == node.order
            && node.order.status != OrderStatus::Init
}

/// Whether every node of the book is an order of one of the users that is in use.
pub open spec fn only_users(users: Map<Seq<char>, AccountView>, book: BookView) -> bool {
    forall|place: Place, node: Node| #[trigger]
        book.has(place) && #[trigger] book.queue(place).contains(node) ==> is_users(users, node)
}

proof fn lemma_inserted_is_users(
    users: Map<Seq<char>, AccountView>,
    before: BookView,
    order: Order,
    account: Pubkey,
    slot: u64,
    after: BookView,
)
    requires
        only_users(users, before),
        is_users(users, Node { order, user_account: account }),
        order_inserted(before, order, account, slot, after),
    ensures
        only_users(users, after),
{
    let home = order_place(order, slot);
    let ready = before.with_market(order.market_type, order.market_index);
    lemma_with_market(before, order.market_type, order.market_index);
    lemma_with_queue(ready, home, after.queue(home));
    assert forall|place: Place, node: Node| #[trigger]
        after.has(place) && #[trigger] after.queue(place).contains(node) implies is_users(
        users,
        node,
    ) by {
        assert(ready.has(place));
        if node != (Node { order, user_account: account }) || place != home {
            if place != home {
                assert(after.queue(place) == ready.queue(place));
            }
            assert(ready.queue(place).contains(node));
            if !before.has(place) {
                assert(ready.queue(place) == Seq::<Node>::empty());
            }
            assert(before.has(place) && before.queue(place).contains(node));
        }
    }
}

proof fn lemma_orders_are_users(
    users: Map<Seq<char>, AccountView>,
    key: Seq<char>,
    before: BookView,
    orders: Seq<Order>,
    account: Pubkey,
    slot: u64,
    after: BookView,
)
    requires
        only_users(users, before),
        users.contains_key(key),
        is_address(key, account),
        orders.is_prefix_of(users[key].orders),
        orders_inserted(before, orders, account, slot, after),
    ensures
        only_users(users, after),
    decreases orders.len(),
{
    if orders.len() > 0 {
        let rest = orders.drop_last();
        let between = choose|between: BookView|
            orders_inserted(before, rest, account, slot, between)
                && #[trigger] used_order_inserted(between, orders.last(), account, slot, after);
        assert(rest.is_prefix_of(users[key].orders));
        lemma_orders_are_users(users, key, before, rest, account, slot, between);
        if orders.last().status != OrderStatus::Init {
            let i = orders.len() - 1;
            assert(users[key].orders[i] == orders.last());
            assert(is_users(users, Node { order: orders.last(), user_account: account }));
            lemma_inserted_is_users(users, between, orders.last(), account, slot, after);
        }
    }
}

proof fn lemma_walk_adds_only_users(
    before: BookView,
    users: Map<Seq<char>, AccountView>,
    walk: Seq<String>,
    slot: u64,
    after: BookView,
)
    requires
        only_users(users, before),
        forall|k: int| 0 <= k < walk.len() ==> users.contains_key((#[trigger] walk[k])@),
        users_inserted(before, users, walk, slot, after),
    ensures
        only_users(users, after),
    decreases walk.len(),
{
    if walk.len() > 0 {
        let key = walk.last()@;
        let rest = walk.drop_last();
        let between = choose|between: BookView|
            users_inserted(before, users, rest, slot, between) && #[trigger] user_inserted(
                between,
                key,
                users[key].orders,
                slot,
                after,
            );
        assert forall|k: int| 0 <= k < rest.len() implies users.contains_key(
            (#[trigger] rest[k])@,
        ) by {
            assert(rest[k] == walk[k]);
        }
        lemma_walk_adds_only_users(before, users, rest, slot, between);
        let owner = choose|owner: Pubkey| #[trigger]
            is_address(key, owner) && key == pubkey_text(owner.bytes@) && orders_inserted(
                between,
                users[key].orders,
                owner,
                slot,
                after,
            );
        assert(users.contains_key(walk[walk.len() - 1]@));
        lemma_orders_are_users(users, key, between, users[key].orders, owner, slot, after);
    }
}

/// A book that is built from the users has no node but their orders that are in
/// use, each under the account of its user.
pub proof fn lemma_built_book_has_nothing_else(
    users: Map<Seq<char>, AccountView>,
    slot: u64,
    book: BookView,
)
    requires
        built_from(users, slot, book),
    ensures
        only_users(users, book),
{
    let empty = empty_book(Map::<Seq<char>, Set<Seq<char>>>::empty(), false);
    let filled = choose|filled: BookView| #[trigger]
        users_inserted_by_some_walk(empty, users, slot, filled) && book == (BookView {
            initialized: true,
            ..filled
        });
    let walk = choose|walk: Seq<String>|
        spells(walk, users) && #[trigger] users_inserted(empty, users, walk, slot, filled);
    lemma_walk_adds_only_users(empty, users, walk, slot, filled);
    assert forall|place: Place, node: Node| #[trigger]
        book.has(place) && #[trigger] book.queue(place).contains(node) implies is_users(
        users,
        node,
    ) by {
        assert(filled.has(place) && filled.queue(place).contains(node));
    }
}

/// From which users a book can be built: from those each of whose keys spells an
/// address, and so from none at all.
pub proof fn lemma_from_whom_a_book_is_built(users: Map<Seq<char>, AccountView>, account: Pubkey)
    ensures
        keys_are_addresses(Map::<Seq<char>, AccountView>::empty()),
        !keys_are_addresses(users) <==> exists|key: Seq<char>| #[trigger]
            users.contains_key(key) && pubkey_of_text(key) is None,
        forall|key: Seq<char>| #[trigger]
            is_address(key, account) <==> pubkey_of_text(key) is Some && pubkey_of_text(key)->0
                == account.bytes@,
{
}

/// The orders of an account go into the book in turn, the ones that are in use and no
/// others, so that of two under one number the later one takes the place of the other.
pub proof fn lemma_orders_go_in_turn(
    before: BookView,
    orders: Seq<Order>,
    more: Order,
    account: Pubkey,
    slot: u64,
    after: BookView,
)
    ensures
        orders_inserted(before, Seq::<Order>::empty(), account, slot, after) <==> after == before,
        more.status == OrderStatus::Init ==> (orders_inserted(
            before,
            orders.push(more),
            account,
            slot,
            after,
        ) <==> orders_inserted(before, orders, account, slot, after)),
        more.status != OrderStatus::Init ==> (orders_inserted(
            before,
            orders.push(more),
            account,
            slot,
            after,
        ) <==> exists|between: BookView|
            orders_inserted(before, orders, account, slot, between) && #[trigger] order_inserted(
                between,
                more,
                account,
                slot,
                after,
            )),
{
    let all = orders.push(more);
    assert(all.drop_last() =~= orders);
    assert(all.last() == more);
    if orders_inserted(before, all, account, slot, after) {
        let between = choose|between: BookView|
            orders_inserted(before, all.drop_last(), account, slot, between)
                && #[trigger] used_order_inserted(between, all.last(), account, slot, after);
        assert(orders_inserted(before, orders, account, slot, between));
    }
    if more.status == OrderStatus::Init && orders_inserted(before, orders, account, slot, after) {
        assert(orders_inserted(before, all.drop_last(), account, slot, after)
            && used_order_inserted(after, all.last(), account, slot, after));
    }
    if more.status != OrderStatus::Init && exists|between: BookView|
        orders_inserted(before, orders, account, slot, between) && #[trigger] order_inserted(
            between,
            more,
            account,
            slot,
            after,
        ) {
        let between = choose|between: BookView|
            orders_inserted(before, orders, account, slot, between) && #[trigger] order_inserted(
                between,
                more,
                account,
                slot,
                after,
            );
        assert(orders_inserted(before, all.drop_last(), account, slot, between)
            && used_order_inserted(between, all.last(), account, slot, after));
    }
}

/// Whether every node stands in the queue in which its order belongs in `slot`.
pub open spec fn all_in_place(book: BookView, slot: u64) -> bool {
    forall|place: Place, node: Node| #[trigger]
        book.has(place) && #[trigger] book.queue(place).contains(node) ==> place == order_place(
            node.order,
            slot,
        )
}

proof fn lemma_inserted_in_place(
    before: BookView,
    order: Order,
    account: Pubkey,
    slot: u64,
    after: BookView,
)
    requires
        all_in_place(before, slot),
        order_inserted(before, order, account, slot, after),
    ensures
        all_in_place(after, slot),
        after.max_slot == before.max_slot,
        after.open_orders == before.open_orders,
        after.initialized == before.initialized,
{
    let home = order_place(order, slot);
    let ready = before.with_market(order.market_type, order.market_index);
    lemma_with_market(before, order.market_type, order.market_index);
    lemma_with_queue(ready, home, after.queue(home));
    assert forall|place: Place, node: Node| #[trigger]
        after.has(place) && #[trigger] after.queue(place).contains(node) implies place
        == order_place(node.order, slot) by {
        assert(ready.has(place));
        if node != (Node { order, user_account: account }) || place != home {
            if place != home {
                assert(after.queue(place) == ready.queue(place));
            }
            assert(ready.queue(place).contains(node));
            if !before.has(place) {
                assert(ready.queue(place) == Seq::<Node>::empty());
            }
            assert(before.has(place) && before.queue(place).contains(node));
        }
    }
}

proof fn lemma_orders_in_place(
    before: BookView,
    orders: Seq<Order>,
    account: Pubkey,
    slot: u64,
    after: BookView,
)
    requires
        all_in_place(before, slot),
        orders_inserted(before, orders, account, slot, after),
    ensures
        all_in_place(after, slot),
        after.max_slot == before.max_slot,
        after.open_orders == before.open_orders,
    decreases orders.len(),
{
    if orders.len() > 0 {
        let rest = orders.drop_last();
        let between = choose|between: BookView|
            orders_inserted(before, rest, account, slot, between)
                && #[trigger] used_order_inserted(between, orders.last(), account, slot, after);
        lemma_orders_in_place(before, rest, account, slot, between);
        if orders.last().status != OrderStatus::Init {
            lemma_inserted_in_place(between, orders.last(), account, slot, after);
        }
    }
}

proof fn lemma_walk_in_place(
    before: BookView,
    users: Map<Seq<char>, AccountView>,
    walk: Seq<String>,
    slot: u64,
    after: BookView,
)
    requires
        all_in_place(before, slot),
        users_inserted(before, users, walk, slot, after),
    ensures
        all_in_place(after, slot),
        after.max_slot == before.max_slot,
        after.open_orders == before.open_orders,
    decreases walk.len(),
{
    if walk.len() > 0 {
        let key = walk.last()@;
        let rest = walk.drop_last();
        let between = choose|between: BookView|
            users_inserted(before, users, rest, slot, between) && #[trigger] user_inserted(
                between,
                key,
                users[key].orders,
                slot,
                after,
            );
        lemma_walk_in_place(before, users, rest, slot, between);
        let owner = choose|owner: Pubkey| #[trigger]
            is_address(key, owner) && key == pubkey_text(owner.bytes@) && orders_inserted(
                between,
                users[key].orders,
                owner,
                slot,
                after,
            );
        lemma_orders_in_place(between, users[key].orders, owner, slot, after);
    }
}

/// A book that is built from the users in a slot has every order where it belongs in
/// that slot. It is set up, has been brought to no slot and has no open orders noted.
pub proof fn lemma_built_book_is_in_place(
    users: Map<Seq<char>, AccountView>,
    slot: u64,
    book: BookView,
    place: Place,
    node: Node,
)
    requires
        built_from(users, slot, book),
    ensures
        book.initialized,
        book.max_slot == 0,
        forall|name: Seq<char>| !#[trigger] book.open_orders.contains_key(name),
        book.has(place) && book.queue(place).contains(node) ==> place == order_place(
            node.order,
            slot,
        ),
{
    let empty = empty_book(Map::<Seq<char>, Set<Seq<char>>>::empty(), false);
    let filled = choose|filled: BookView| #[trigger]
        users_inserted_by_some_walk(empty, users, slot, filled) && book == (BookView {
            initialized: true,
            ..filled
        });
    let walk = choose|walk: Seq<String>|
        spells(walk, users) && #[trigger] users_inserted(empty, users, walk, slot, filled);
    lemma_walk_in_place(empty, users, walk, slot, filled);
    if book.has(place) && book.queue(place).contains(node) {
        assert(filled.has(place) && filled.queue(place).contains(node));
    }
}

/// Whether every key is the one text of the address that it spells.
pub open spec fn keys_are_texts(users: Map<Seq<char>, AccountView>) -> bool {
    forall|key: Seq<char>, account: Pubkey|
        users.contains_key(key) && #[trigger] is_address(key, account) ==> key == pubkey_text(
            account.bytes@,
        )
}

proof fn lemma_walked_keys_are_texts(
    before: BookView,
    users: Map<Seq<char>, AccountView>,
    walk: Seq<String>,
    slot: u64,
    after: BookView,
)
    requires
        users_inserted(before, users, walk, slot, after),
    ensures
        forall|k: int, account: Pubkey|
            0 <= k < walk.len() && #[trigger] is_address(walk[k]@, account) ==> walk[k]@
                == pubkey_text(account.bytes@),
    decreases walk.len(),
{
    if walk.len() > 0 {
        let key = walk.last()@;
        let rest = walk.drop_last();
        let between = choose|between: BookView|
            users_inserted(before, users, rest, slot, between) && #[trigger] user_inserted(
                between,
                key,
                users[key].orders,
                slot,
                after,
            );
        lemma_walked_keys_are_texts(before, users, rest, slot, between);
        assert forall|k: int, account: Pubkey|
            0 <= k < walk.len() && #[trigger] is_address(walk[k]@, account) implies walk[k]@
            == pubkey_text(account.bytes@) by {
            if k < walk.len() - 1 {
                assert(is_address(rest[k]@, account));
            }
        }
    }
}

/// A book can only be built from users each of whose keys is the one text of its
/// address: no address has two keys.
pub proof fn lemma_built_from_texts(
    users: Map<Seq<char>, AccountView>,
    slot: u64,
    book: BookView,
)
    requires
        built_from(users, slot, book),
    ensures
        keys_are_texts(users),
{
    let empty = empty_book(Map::<Seq<char>, Set<Seq<char>>>::empty(), false);
    let filled = choose|filled: BookView| #[trigger]
        users_inserted_by_some_walk(empty, users, slot, filled) && book == (BookView {
            initialized: true,
            ..filled
        });
    let walk = choose|walk: Seq<String>|
        spells(walk, users) && #[trigger] users_inserted(empty, users, walk, slot, filled);
    lemma_walked_keys_are_texts(empty, users, walk, slot, filled);
    assert forall|key: Seq<char>, account: Pubkey|
        users.contains_key(key) && #[trigger] is_address(key, account) implies key
        == pubkey_text(account.bytes@) by {
        let k = choose|k: int| 0 <= k < walk.len() && (#[trigger] walk[k])@ == key;
        assert(is_address(walk[k]@, account));
    }
}

/// Whether no user has two orders in use under one number.
pub open spec fn numbered_once(users: Map<Seq<char>, AccountView>) -> bool {
    forall|key: Seq<char>, i: int, j: int|
        #![trigger users[key].orders[i], users[key].orders[j]]
        users.contains_key(key) && 0 <= i < j < users[key].orders.len()
            && users[key].orders[i].status != OrderStatus::Init && users[key].orders[j].status
            != OrderStatus::Init ==> users[key].orders[i].order_id
            != users[key].orders[j].order_id
}

/// Whether the account is that of a user who has the order under that number, in
/// use.
pub open spec fn is_users_order(
    users: Map<Seq<char>, AccountView>,
    order_id: u32,
    account: Pubkey,
    order: Order,
) -> bool {
    order.order_id == order_id && is_users(users, Node { order, user_account: account })
}

proof fn lemma_answer_is_users(
    users: Map<Seq<char>, AccountView>,
    slot: u64,
    book: BookView,
    order_id: u32,
    account: Pubkey,
    order: Order,
)
    requires
        built_from(users, slot, book),
        text_spells(account),
        gives(book, order_id, account, Some(order)),
    ensures
        is_users_order(users, order_id, account, order),
{
    let signature = order_signature(order_id, account);
    let kind = if on_kind(book, MarketType::Perp, order_id, account) {
        MarketType::Perp
    } else {
        MarketType::Spot
    };
    let index = choose|index: u16| #[trigger]
        book.has_market(kind, index) && book.market(kind, index).finds(signature, order);
    let (node_type, sub_type, node) = choose|node_type: NodeType, sub_type: SubType, node: Node|
     #[trigger]
        book.market(kind, index).queue(node_type, sub_type).contains(node) && node.signature()
            == signature && node.order == order && book.market(kind, index).first_with(
            signature,
            node_type,
            sub_type,
        );
    let place = Place { market_type: kind, market_index: index, node_type, sub_type };
    assert(book.has(place) && book.queue(place).contains(node));
    lemma_built_book_has_nothing_else(users, slot, book);
    assert(is_users(users, node));
    lemma_built_from_texts(users, slot, book);
    assert(text_spells(node.user_account));
    lemma_signature_is_injective(node.order.order_id, node.user_account, order_id, account);
    assert(node == (Node { order, user_account: account }));
}

/// A book that is built from the users answers with their orders in use and with
/// nothing else, where no user has two of them under one number: the answer for a
/// number and an account is an order exactly where that account is a user's who has
/// that order under that number. So nothing is left of what the book had before.
pub proof fn lemma_built_book_answers(
    users: Map<Seq<char>, AccountView>,
    slot: u64,
    book: BookView,
    order_id: u32,
    account: Pubkey,
    found: Option<Order>,
)
    requires
        built_from(users, slot, book),
        numbered_once(users),
        text_spells(account),
        gives(book, order_id, account, found),
    ensures
        forall|order: Order|
            found == Some(order) <==> #[trigger] is_users_order(users, order_id, account, order),
{
    lemma_built_from_texts(users, slot, book);
    if let Some(given) = found {
        lemma_answer_is_users(users, slot, book, order_id, account, given);
    }
    assert forall|order: Order| #[trigger]
        is_users_order(users, order_id, account, order) implies found == Some(order) by {
        let (key, i) = choose|key: Seq<char>, i: int|
            users.contains_key(key) && is_address(key, account) && 0 <= i
                < users[key].orders.len() && #[trigger] users[key].orders[i] == order
                && order.status != OrderStatus::Init;
        lemma_built_book_is_complete(users, slot, book, key, account, i);
        assert(found is Some);
        let given = found->0;
        let (other, j) = choose|other: Seq<char>, j: int|
            users.contains_key(other) && is_address(other, account) && 0 <= j
                < users[other].orders.len() && #[trigger] users[other].orders[j] == given
                && given.status != OrderStatus::Init;
        assert(other == key);
        assert(i == j);
    }
}

/// Two books that are built from the same users, in whatever slots, answer alike,
/// where no user has two orders in use under one number. Building a book again
/// gives the same orders.
pub proof fn lemma_built_books_answer_alike(
    users: Map<Seq<char>, AccountView>,
    slot: u64,
    book: BookView,
    other_slot: u64,
    other: BookView,
    order_id: u32,
    account: Pubkey,
    found: Option<Order>,
    other_found: Option<Order>,
)
    requires
        built_from(users, slot, book),
        built_from(users, other_slot, other),
        numbered_once(users),
        text_spells(account),
        gives(book, order_id, account, found),
        gives(other, order_id, account, other_found),
    ensures
        found == other_found,
{
    lemma_built_book_answers(users, slot, book, order_id, account, found);
    lemma_built_book_answers(users, other_slot, other, order_id, account, other_found);
    if let Some(order) = found {
        assert(is_users_order(users, order_id, account, order));
    }
    if let Some(order) = other_found {
        assert(is_users_order(users, order_id, account, order));
    }
}

} // verus!
