//! The user accounts that are followed, and the book that is built from them.

use dlob::dlob::dlob::DLOB;
use dlob::order_subscriber::OrderSubscriber;
use dlob::pubkey::Pubkey;
use dlob::types::{Order, OrderStatus};
use dlob::usermap::{
    DataAndSlot, Lookup, SubscribeAction, SubscribeEvent, SyncError, SyncResponse, SyncedAccount,
    UnsubscribeAction, UnsubscribeEvent, User, Usermap,
};

fn address(n: u8) -> Pubkey {
    Pubkey { bytes: [n; 32] }
}

fn order(order_id: u32, status: OrderStatus) -> Order {
    Order {
        order_id,
        status,
        price: 10,
        ..Order::default()
    }
}

fn user(ids: &[u32]) -> User {
    User {
        orders: ids.iter().map(|id| order(*id, OrderStatus::Open)).collect(),
    }
}

fn seen(slot: u64, ids: &[u32]) -> DataAndSlot<User> {
    DataAndSlot {
        slot,
        data: user(ids),
    }
}

fn ids(user: &User) -> Vec<u32> {
    user.orders.iter().map(|order| order.order_id).collect()
}

fn synced(key: &str, user: Option<User>) -> SyncedAccount {
    SyncedAccount {
        pubkey: key.to_string(),
        user,
    }
}

#[test]
fn new_map_is_empty() {
    let usermap = Usermap::default();
    assert_eq!(usermap.size(), 0);
    assert_eq!(usermap.get_latest_slot(), 0);
    assert!(!usermap.contains("a"));
    assert!(usermap.get("a").is_none());
    assert!(!usermap.is_subscribed());
    assert!(usermap.keys().is_empty());
}

#[test]
fn update_is_read_back() {
    let mut usermap = Usermap::new();
    usermap.update("a".to_string(), seen(7, &[1]));
    usermap.update("b".to_string(), seen(9, &[2]));
    usermap.update("a".to_string(), seen(8, &[3, 4]));
    assert_eq!(usermap.size(), 2);
    assert!(usermap.contains("a"));
    let a = usermap.get("a").unwrap();
    assert_eq!((a.slot, ids(&a.data)), (8, vec![3, 4]));
    let b = usermap.get("b").unwrap();
    assert_eq!((b.slot, ids(&b.data)), (9, vec![2]));
    // An update that is older than another does not set the slot back.
    assert_eq!(usermap.get_latest_slot(), 9);
    let mut keys = usermap.keys();
    keys.sort();
    assert_eq!(keys, vec!["a".to_string(), "b".to_string()]);
}

#[test]
fn sync_takes_over_every_account() {
    let mut usermap = Usermap::new();
    usermap.update("a".to_string(), seen(90, &[1]));
    let response = SyncResponse::Context {
        slot: 50,
        accounts: vec![
            synced("b", Some(user(&[2]))),
            synced("c", Some(user(&[3]))),
            synced("b", Some(user(&[4]))),
        ],
    };
    assert_eq!(usermap.sync(response), Ok(()));
    assert_eq!(usermap.size(), 3);
    // The slot is that of the answer, even where it is an earlier one.
    assert_eq!(usermap.get_latest_slot(), 50);
    let b = usermap.get("b").unwrap();
    assert_eq!((b.slot, ids(&b.data)), (50, vec![4]));
    assert_eq!(usermap.get("a").unwrap().slot, 90);
}

#[test]
fn sync_stops_at_an_account_that_cannot_be_decoded() {
    let mut usermap = Usermap::new();
    let response = SyncResponse::Context {
        slot: 50,
        accounts: vec![
            synced("a", Some(user(&[1]))),
            synced("b", None),
            synced("c", Some(user(&[3]))),
        ],
    };
    assert_eq!(usermap.sync(response), Err(SyncError::Decode));
    assert!(usermap.contains("a"));
    assert!(!usermap.contains("b"));
    assert!(!usermap.contains("c"));
    assert_eq!(usermap.get_latest_slot(), 0);
}

#[test]
fn sync_without_context_changes_nothing() {
    let mut usermap = Usermap::new();
    usermap.update("a".to_string(), seen(7, &[1]));
    assert_eq!(usermap.sync(SyncResponse::NoContext), Ok(()));
    assert_eq!(usermap.size(), 1);
    assert_eq!(usermap.get_latest_slot(), 7);
}

#[test]
fn subscription_runs_through_its_steps() {
    let mut usermap = Usermap::new();
    assert_eq!(usermap.subscribe(SubscribeEvent::Asked), SubscribeAction::Sync);
    usermap.update("a".to_string(), seen(7, &[1]));
    assert_eq!(
        usermap.subscribe(SubscribeEvent::Synced),
        SubscribeAction::Connect
    );
    assert!(!usermap.is_subscribed());
    assert_eq!(
        usermap.subscribe(SubscribeEvent::Connected),
        SubscribeAction::Listen
    );
    assert!(usermap.is_subscribed());
    assert_eq!(
        usermap.subscribe(SubscribeEvent::Asked),
        SubscribeAction::Listen
    );
    assert_eq!(
        usermap.unsubscribe(UnsubscribeEvent::Asked),
        UnsubscribeAction::Disconnect
    );
    assert_eq!(usermap.size(), 1);
    assert_eq!(
        usermap.unsubscribe(UnsubscribeEvent::Disconnected),
        UnsubscribeAction::Finish
    );
    assert_eq!(usermap.size(), 0);
    assert!(!usermap.is_subscribed());
    assert_eq!(usermap.get_latest_slot(), 7);
    assert_eq!(
        usermap.unsubscribe(UnsubscribeEvent::Asked),
        UnsubscribeAction::Finish
    );
}

#[test]
fn subscription_with_accounts_at_hand_connects_at_once() {
    let mut usermap = Usermap::new();
    usermap.update("a".to_string(), seen(7, &[1]));
    assert_eq!(
        usermap.subscribe(SubscribeEvent::Asked),
        SubscribeAction::Connect
    );
}

#[test]
fn must_get_finds_fetches_or_gives_up() {
    let mut usermap = Usermap::new();
    let key = address(3).to_text();
    match usermap.must_get(&key) {
        Lookup::Fetch(found) => assert!(found == address(3)),
        _ => panic!("the account is not at hand"),
    }
    assert!(matches!(usermap.must_get("?"), Lookup::NotAnAddress));
    let stored = usermap.store_fetched(&key, user(&[5]));
    assert_eq!((stored.slot, ids(&stored.data)), (0, vec![5]));
    match usermap.must_get(&key) {
        Lookup::Found(found) => assert_eq!((found.slot, ids(&found.data)), (0, vec![5])),
        _ => panic!("the account is at hand"),
    }
    assert_eq!(usermap.get_latest_slot(), 0);
    // What is at hand is found even where the key is no address.
    usermap.update("?".to_string(), seen(1, &[6]));
    assert!(matches!(usermap.must_get("?"), Lookup::Found(_)));
}

#[test]
fn order_subscription_starts_once() {
    let mut orders = OrderSubscriber::new();
    assert_eq!(OrderSubscriber::SUBSCRIPTION_ID, "order");
    assert_eq!(
        orders.subscribe(SubscribeEvent::Asked),
        Some(SubscribeAction::Sync)
    );
    assert_eq!(
        orders.subscribe(SubscribeEvent::Synced),
        Some(SubscribeAction::Connect)
    );
    assert_eq!(
        orders.subscribe(SubscribeEvent::Connected),
        Some(SubscribeAction::Listen)
    );
    assert_eq!(orders.subscribe(SubscribeEvent::Asked), None);
    assert_eq!(
        orders.unsubscribe(UnsubscribeEvent::Asked),
        UnsubscribeAction::Disconnect
    );
    assert_eq!(
        orders.unsubscribe(UnsubscribeEvent::Disconnected),
        UnsubscribeAction::Finish
    );
    assert!(!orders.subscriber.is_subscribed());
    orders.subscriber.update("a".to_string(), seen(7, &[1]));
    assert_eq!(
        orders.subscribe(SubscribeEvent::Asked),
        Some(SubscribeAction::Connect)
    );
}

#[test]
fn book_is_built_from_the_orders_in_use() {
    let mut usermap = Usermap::new();
    usermap.update(
        address(1).to_text(),
        DataAndSlot {
            slot: 1,
            data: User {
                orders: vec![
                    order(1, OrderStatus::Open),
                    order(2, OrderStatus::Init),
                    order(3, OrderStatus::Filled),
                ],
            },
        },
    );
    usermap.update(address(2).to_text(), seen(1, &[1]));
    let mut dlob = DLOB::new();
    dlob.insert_order(&order(77, OrderStatus::Open), address(9), 5);
    dlob.build_from_usermap(&usermap, 5);
    assert_eq!(dlob.size(), (3, 0));
    assert!(dlob.get_order(1, address(1)).is_some());
    assert!(dlob.get_order(2, address(1)).is_none());
    assert!(dlob.get_order(3, address(1)).is_some());
    assert!(dlob.get_order(1, address(2)).is_some());
    assert!(dlob.get_order(77, address(9)).is_none());
}

#[test]
fn book_is_not_built_from_keys_that_are_no_addresses() {
    let mut usermap = Usermap::new();
    usermap.update(address(2).to_text(), seen(1, &[1]));
    let mut dlob = DLOB::new();
    assert!(dlob.try_build_from_usermap(&usermap, 5));
    assert_eq!(dlob.size(), (1, 0));
    usermap.update("?".to_string(), seen(1, &[2]));
    assert!(!dlob.try_build_from_usermap(&usermap, 5));
    assert_eq!(dlob.size(), (1, 0));
}

#[test]
fn built_book_answers_with_the_orders_of_the_users() {
    let mut usermap = Usermap::new();
    let mut dlob = DLOB::new();
    dlob.insert_order(&order(1, OrderStatus::Open), address(3), 5);
    for n in 1..4u8 {
        let data = User {
            orders: (0..4u32)
                .map(|id| Order {
                    price: n as u64 * 10 + id as u64,
                    market_index: n as u16,
                    ..order(
                        id,
                        if id == 3 {
                            OrderStatus::Init
                        } else {
                            OrderStatus::Open
                        },
                    )
                })
                .collect(),
        };
        usermap.update(address(n).to_text(), DataAndSlot { slot: 1, data });
    }
    for slot in [5, 9] {
        dlob.build_from_usermap(&usermap, slot);
        for n in 1..4u8 {
            let user = usermap.get(&address(n).to_text()).unwrap();
            for id in 0..3u32 {
                assert_eq!(
                    dlob.get_order(id, address(n)),
                    Some(user.data.orders[id as usize])
                );
            }
            assert_eq!(dlob.get_order(3, address(n)), None);
        }
        assert_eq!(dlob.get_order(1, address(4)), None);
    }
}

#[test]
fn only_the_text_of_an_address_is_read() {
    for n in 0..=255u8 {
        let mut bytes = [n; 32];
        bytes[0] = 0;
        bytes[1] = n / 64;
        let key = Pubkey { bytes };
        let text = key.to_text();
        assert_eq!(Pubkey::from_text(&text), Some(key));
        // One leading one more or less is no text of an address.
        assert_eq!(Pubkey::from_text(&format!("1{}", text)), None);
        assert_eq!(Pubkey::from_text(&text[1..]), None);
        assert_eq!(Pubkey::from_text(&format!(" {}", text)), None);
    }
    let zero = Pubkey { bytes: [0; 32] };
    assert_eq!(zero.to_text(), "1".repeat(32));
    assert_eq!(Pubkey::from_text(&"1".repeat(31)), None);
    assert_eq!(Pubkey::from_text(&"1".repeat(33)), None);
}
