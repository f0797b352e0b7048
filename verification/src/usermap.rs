//! The user accounts that are followed, by address, and what is to be done when
//! following them starts, goes on and stops.

use vstd::prelude::*;

use dashmap::DashMap;
use std::collections::hash_map::RandomState;

use crate::index::{
    spells, text_index_clear, text_index_contains, text_index_get, text_index_insert,
    text_index_keys, text_index_len, text_index_new, text_positions,
};
use crate::pubkey::{pubkey_of_text, Pubkey};
use crate::types::Order;

verus! {

/// A user account, as far as the order book reads it.
#[derive(Debug)]
pub struct User {
    pub orders: Vec<Order>,
}

impl Clone for User {
    fn clone(&self) -> (copy: Self)
        ensures
            copy.orders@ == self.orders@,
    {
        let orders = self.orders.clone();
        assert(orders@ =~= self.orders@);
        User { orders }
    }
}

/// Data together with the slot in which it was seen.
#[derive(Debug)]
pub struct DataAndSlot<T> {
    pub slot: u64,
    pub data: T,
}

/// What is known of an account.
#[verifier::ext_equal]
pub struct AccountView {
    pub slot: u64,
    pub orders: Seq<Order>,
}

impl View for DataAndSlot<User> {
    type V = AccountView;

    open spec fn view(&self) -> AccountView {
        AccountView { slot: self.slot, orders: self.data.orders@ }
    }
}

/// The accounts that are followed.
#[verifier::ext_equal]
pub struct UsermapView {
    pub subscribed: bool,
    /// The accounts, by the text of their address.
    pub users: Map<Seq<char>, AccountView>,
    pub latest_slot: u64,
}

/// An account of an answer to a request for all of them.
#[derive(Debug)]
pub struct SyncedAccount {
    pub pubkey: String,
    /// The account, or nothing where its data could not be decoded.
    pub user: Option<User>,
}

/// An answer to a request for all accounts.
#[derive(Debug)]
pub enum SyncResponse {
    /// An answer that says for which slot it holds.
    Context { slot: u64, accounts: Vec<SyncedAccount> },
    /// An answer that does not, and is passed over.
    NoContext,
}

/// Why the accounts could not be taken over.
#[derive(Clone, Copy, Debug, PartialEq, Eq, Structural)]
pub enum SyncError {
    /// The data of an account could not be decoded.
    Decode,
}

/// What happened in the course of a subscription.
#[derive(Clone, Copy, Debug, PartialEq, Eq, Structural)]
pub enum SubscribeEvent {
    /// A subscription is asked for.
    Asked,
    /// The accounts were requested, and the answer taken over.
    Synced,
    /// The stream of account updates was opened.
    Connected,
}

/// What is to be done next for a subscription.
#[derive(Clone, Copy, Debug, PartialEq, Eq, Structural)]
pub enum SubscribeAction {
    /// Request all accounts.
    Sync,
    /// Open the stream of account updates.
    Connect,
    /// Take over every update of the stream. Nothing else is left to do.
    Listen,
}

/// What happened in the course of the end of a subscription.
#[derive(Clone, Copy, Debug, PartialEq, Eq, Structural)]
pub enum UnsubscribeEvent {
    /// The end is asked for.
    Asked,
    /// The stream of account updates was closed.
    Disconnected,
}

/// What is to be done next for the end of a subscription.
#[derive(Clone, Copy, Debug, PartialEq, Eq, Structural)]
pub enum UnsubscribeAction {
    /// Close the stream of account updates.
    Disconnect,
    /// Nothing is left to do.
    Finish,
}

/// What a lookup of an account that must be there comes to.
#[derive(Debug)]
pub enum Lookup {
    /// The account is at hand.
    Found(DataAndSlot<User>),
    /// The account with this address has to be fetched.
    Fetch(Pubkey),
    /// The account is not at hand, and the text is no address.
    NotAnAddress,
}

/// The action with which a subscription goes on, once the accounts are at hand.
pub open spec fn connect_or_listen(subscribed: bool) -> SubscribeAction {
    if subscribed {
        SubscribeAction::Listen
    } else {
        SubscribeAction::Connect
    }
}

/// What is to be done next for a subscription.
pub open spec fn subscribe_action(before: UsermapView, event: SubscribeEvent) -> SubscribeAction {
    match event {
        SubscribeEvent::Asked => if before.users.len() == 0 {
            SubscribeAction::Sync
        } else {
            connect_or_listen(before.subscribed)
        },
        SubscribeEvent::Synced => connect_or_listen(before.subscribed),
        SubscribeEvent::Connected => SubscribeAction::Listen,
    }
}

/// What is known once something has happened in the course of a subscription.
pub open spec fn subscribe_step(before: UsermapView, event: SubscribeEvent) -> UsermapView {
    UsermapView {
        subscribed: before.subscribed || event == SubscribeEvent::Connected,
        ..before
    }
}

/// What is to be done next for the end of a subscription.
pub open spec fn unsubscribe_action(
    before: UsermapView,
    event: UnsubscribeEvent,
) -> UnsubscribeAction {
    match event {
        UnsubscribeEvent::Asked => if before.subscribed {
            UnsubscribeAction::Disconnect
        } else {
            UnsubscribeAction::Finish
        },
        UnsubscribeEvent::Disconnected => UnsubscribeAction::Finish,
    }
}

/// What is known once something has happened in the course of the end of a
/// subscription.
pub open spec fn unsubscribe_step(before: UsermapView, event: UnsubscribeEvent) -> UsermapView {
    match event {
        UnsubscribeEvent::Asked => before,
        UnsubscribeEvent::Disconnected => UsermapView {
            subscribed: false,
            users: Map::<Seq<char>, AccountView>::empty(),
            latest_slot: before.latest_slot,
        },
    }
}

/// What is known once an update of an account is taken over.
pub open spec fn updated(before: UsermapView, key: Seq<char>, account: AccountView) -> UsermapView {
    UsermapView {
        subscribed: before.subscribed,
        users: before.users.insert(key, account),
        latest_slot: if account.slot > before.latest_slot {
            account.slot
        } else {
            before.latest_slot
        },
    }
}

/// What is known once an account that was fetched is taken over.
pub open spec fn fetched(before: UsermapView, key: Seq<char>, orders: Seq<Order>) -> UsermapView {
    UsermapView {
        users: before.users.insert(key, AccountView { slot: 0, orders }),
        ..before
    }
}

/// Whether taking over an answer to a request for all accounts makes what is known
/// `before` into what is known `after`, and comes to `result`.
pub open spec fn synced(
    before: UsermapView,
    response: SyncResponse,
    after: UsermapView,
    result: Result<(), SyncError>,
) -> bool {
    match response {
        SyncResponse::Context { slot, accounts } => match result {
            Ok(()) => {
                &&& decoded(accounts@, accounts@.len() as int)
                &&& after == (UsermapView {
                    subscribed: before.subscribed,
                    users: users_with(before.users, accounts@, slot),
                    latest_slot: slot,
                })
            },
            Err(SyncError::Decode) => exists|count: int|
                {
                    &&& 0 <= count < accounts@.len()
                    &&& decoded(accounts@, count)
                    &&& (#[trigger] accounts@[count]).user is None
                    &&& after == (UsermapView {
                        users: users_with(before.users, accounts@.take(count), slot),
                        ..before
                    })
                },
        },
        SyncResponse::NoContext => result is Ok && after == before,
    }
}

/// The accounts `users` once all of `accounts` are taken over, in turn.
pub open spec fn users_with(
    users: Map<Seq<char>, AccountView>,
    accounts: Seq<SyncedAccount>,
    slot: u64,
) -> Map<Seq<char>, AccountView>
    decreases accounts.len(),
{
    if accounts.len() == 0 {
        users
    } else {
        let last = accounts.last();
        users_with(users, accounts.drop_last(), slot).insert(
            last.pubkey@,
            AccountView { slot, orders: last.user->0.orders@ },
        )
    }
}

/// Whether the data of every one of the first `count` accounts could be decoded.
pub open spec fn decoded(accounts: Seq<SyncedAccount>, count: int) -> bool {
    forall|i: int| 0 <= i < count ==> (#[trigger] accounts[i]).user is Some
}

/// Whether one of the accounts has the address.
pub open spec fn answers(accounts: Seq<SyncedAccount>, key: Seq<char>) -> bool {
    exists|i: int| 0 <= i < accounts.len() && (#[trigger] accounts[i]).pubkey@ == key
}

/// Taking over an answer forgets no account, and adds those that it answers for.
pub proof fn lemma_users_with_keys(
    users: Map<Seq<char>, AccountView>,
    accounts: Seq<SyncedAccount>,
    slot: u64,
    key: Seq<char>,
)
    ensures
        users_with(users, accounts, slot).contains_key(key) == (users.contains_key(key) || answers(
            accounts,
            key,
        )),
    decreases accounts.len(),
{
    if accounts.len() > 0 {
        let rest = accounts.drop_last();
        lemma_users_with_keys(users, rest, slot, key);
        if answers(rest, key) {
            let i = choose|i: int| 0 <= i < rest.len() && (#[trigger] rest[i]).pubkey@ == key;
            assert(accounts[i].pubkey@ == key);
        }
        if accounts.last().pubkey@ == key {
            assert(accounts[accounts.len() - 1].pubkey@ == key);
        }
        if answers(accounts, key) && accounts.last().pubkey@ != key {
            let i = choose|i: int|
                0 <= i < accounts.len() && (#[trigger] accounts[i]).pubkey@ == key;
            assert(rest[i].pubkey@ == key);
        }
    }
}

/// Taking over an answer leaves every account that it does not answer for as it
/// was known before.
pub proof fn lemma_users_with_others(
    users: Map<Seq<char>, AccountView>,
    accounts: Seq<SyncedAccount>,
    slot: u64,
    key: Seq<char>,
)
    requires
        users.contains_key(key),
        !answers(accounts, key),
    ensures
        users_with(users, accounts, slot)[key] == users[key],
    decreases accounts.len(),
{
    if accounts.len() > 0 {
        let rest = accounts.drop_last();
        assert(accounts[accounts.len() - 1].pubkey@ != key);
        assert(!answers(rest, key)) by {
            if answers(rest, key) {
                let i = choose|i: int| 0 <= i < rest.len() && (#[trigger] rest[i]).pubkey@ == key;
                assert(accounts[i].pubkey@ == key);
            }
        }
        lemma_users_with_others(users, rest, slot, key);
    }
}

/// After taking over an answer, an account of the answer is known as the last entry
/// with its address says, as of the slot of the answer.
pub proof fn lemma_users_with_last(
    users: Map<Seq<char>, AccountView>,
    accounts: Seq<SyncedAccount>,
    slot: u64,
    i: int,
)
    requires
        0 <= i < accounts.len(),
        forall|j: int|
            i < j < accounts.len() ==> (#[trigger] accounts[j]).pubkey@ != accounts[i].pubkey@,
    ensures
        users_with(users, accounts, slot)[accounts[i].pubkey@] == (AccountView {
            slot,
            orders: accounts[i].user->0.orders@,
        }),
    decreases accounts.len(),
{
    if i < accounts.len() - 1 {
        let rest = accounts.drop_last();
        assert(accounts[accounts.len() - 1].pubkey@ != accounts[i].pubkey@);
        assert(rest[i] == accounts[i]);
        assert forall|j: int| i < j < rest.len() implies (#[trigger] rest[j]).pubkey@
            != rest[i].pubkey@ by {
            assert(rest[j] == accounts[j]);
        }
        lemma_users_with_last(users, rest, slot, i);
    }
}

/// How a subscription goes. One that is asked for starts with a request for the
/// accounts where none is known, and with nothing else. Once there are some the stream
/// is opened, unless it is open. Once it is open it is listened to, and the
/// subscription is on. No account is forgotten on the way, and no slot.
pub proof fn lemma_how_a_subscription_goes(before: UsermapView, event: SubscribeEvent)
    ensures
        subscribe_step(before, event).users == before.users,
        subscribe_step(before, event).latest_slot == before.latest_slot,
        subscribe_step(before, SubscribeEvent::Asked).subscribed == before.subscribed,
        subscribe_step(before, SubscribeEvent::Synced).subscribed == before.subscribed,
        subscribe_step(before, SubscribeEvent::Connected).subscribed,
        subscribe_action(before, SubscribeEvent::Asked) == SubscribeAction::Sync
            <==> before.users.len() == 0,
        before.users.len() > 0 && !before.subscribed ==> subscribe_action(
            before,
            SubscribeEvent::Asked,
        ) == SubscribeAction::Connect,
        before.users.len() > 0 && before.subscribed ==> subscribe_action(
            before,
            SubscribeEvent::Asked,
        ) == SubscribeAction::Listen,
        !before.subscribed ==> subscribe_action(before, SubscribeEvent::Synced)
            == SubscribeAction::Connect,
        before.subscribed ==> subscribe_action(before, SubscribeEvent::Synced)
            == SubscribeAction::Listen,
        subscribe_action(before, SubscribeEvent::Connected) == SubscribeAction::Listen,
{
}

/// How a subscription ends. Where the stream is open it is closed first, and nothing is
/// forgotten before it is. Then every account is, but the latest slot is not, and the
/// subscription is off: nothing is left to do if the end is asked for again.
pub proof fn lemma_how_a_subscription_ends(before: UsermapView)
    ensures
        unsubscribe_step(before, UnsubscribeEvent::Asked) == before,
        unsubscribe_action(before, UnsubscribeEvent::Asked) == UnsubscribeAction::Disconnect
            <==> before.subscribed,
        unsubscribe_action(before, UnsubscribeEvent::Disconnected) == UnsubscribeAction::Finish,
        ({
            let after = unsubscribe_step(before, UnsubscribeEvent::Disconnected);
            &&& !after.subscribed
            &&& after.latest_slot == before.latest_slot
            &&& forall|key: Seq<char>| !#[trigger] after.users.contains_key(key)
            &&& unsubscribe_action(after, UnsubscribeEvent::Asked) == UnsubscribeAction::Finish
        }),
{
}

/// What an update does: the account is then known as the update says, every other as
/// before. The latest slot is the greater of what it was and that of the update, so
/// that it never falls.
pub proof fn lemma_what_an_update_of_an_account_does(
    before: UsermapView,
    key: Seq<char>,
    account: AccountView,
    other: Seq<char>,
)
    ensures
        ({
            let after = updated(before, key, account);
            &&& after.users.contains_key(key) && after.users[key] == account
            &&& other != key ==> (after.users.contains_key(other) <==> before.users.contains_key(
                other,
            ))
            &&& other != key && before.users.contains_key(other) ==> after.users[other]
                == before.users[other]
            &&& after.latest_slot >= before.latest_slot
            &&& after.latest_slot >= account.slot
            &&& after.latest_slot == before.latest_slot || after.latest_slot == account.slot
            &&& after.subscribed == before.subscribed
        }),
{
}

/// What taking over a fetched account does: it is then known, as of no slot, every other
/// account as before. The latest slot stays.
pub proof fn lemma_what_a_fetch_does(
    before: UsermapView,
    key: Seq<char>,
    orders: Seq<Order>,
    other: Seq<char>,
)
    ensures
        ({
            let after = fetched(before, key, orders);
            &&& after.users.contains_key(key)
            &&& after.users[key].slot == 0
            &&& after.users[key].orders == orders
            &&& other != key ==> (after.users.contains_key(other) <==> before.users.contains_key(
                other,
            ))
            &&& other != key && before.users.contains_key(other) ==> after.users[other]
                == before.users[other]
            &&& after.latest_slot == before.latest_slot
            &&& after.subscribed == before.subscribed
        }),
{
}

/// What a sync does. It succeeds exactly where the answer says no slot, and is then
/// passed over, or where every account of it could be decoded. Every account of the
/// answer before the first that could not is then known, as of the slot of the answer;
/// no account is forgotten. The latest slot is that of the answer where all could be
/// decoded, else it stays.
pub proof fn lemma_what_a_sync_does(
    before: UsermapView,
    response: SyncResponse,
    after: UsermapView,
    result: Result<(), SyncError>,
    key: Seq<char>,
    i: int,
)
    requires
        synced(before, response, after, result),
    ensures
        after.subscribed == before.subscribed,
        before.users.contains_key(key) ==> after.users.contains_key(key),
        response is NoContext ==> result is Ok && after == before,
        response matches SyncResponse::Context { slot, accounts } ==> {
            &&& result is Ok <==> forall|k: int|
                0 <= k < accounts@.len() ==> (#[trigger] accounts@[k]).user is Some
            &&& result is Ok ==> after.latest_slot == slot
            &&& result is Err ==> after.latest_slot == before.latest_slot
            &&& 0 <= i < accounts@.len() && accounts@[i].pubkey@ == key && (forall|k: int|
                0 <= k <= i ==> (#[trigger] accounts@[k]).user is Some)
                ==> after.users.contains_key(key) && after.users[key].slot == slot
            &&& 0 <= i < accounts@.len() && accounts@[i].pubkey@ == key && (forall|k: int|
                0 <= k <= i ==> (#[trigger] accounts@[k]).user is Some) && (forall|k: int|
                i < k < accounts@.len() ==> (#[trigger] accounts@[k]).pubkey@ != key)
                ==> after.users[key].orders == accounts@[i].user->0.orders@
            &&& before.users.contains_key(key) && (forall|k: int|
                0 <= k < accounts@.len() ==> (#[trigger] accounts@[k]).pubkey@ != key)
                ==> after.users[key] == before.users[key]
            &&& !before.users.contains_key(key) && (forall|k: int|
                0 <= k < accounts@.len() ==> (#[trigger] accounts@[k]).pubkey@ != key)
                ==> !after.users.contains_key(key)
        },
{
    if let SyncResponse::Context { slot, accounts } = response {
        let count = if result is Ok {
            accounts@.len() as int
        } else {
            choose|count: int|
                {
                    &&& 0 <= count < accounts@.len()
                    &&& decoded(accounts@, count)
                    &&& (#[trigger] accounts@[count]).user is None
                    &&& after == (UsermapView {
                        users: users_with(before.users, accounts@.take(count), slot),
                        ..before
                    })
                }
        };
        let taken = accounts@.take(count);
        if result is Ok {
            assert(taken =~= accounts@);
        }
        assert(after.users == users_with(before.users, taken, slot));
        lemma_users_with_keys(before.users, taken, slot, key);
        if 0 <= i < accounts@.len() && accounts@[i].pubkey@ == key && (forall|k: int|
            0 <= k <= i ==> (#[trigger] accounts@[k]).user is Some) {
            if i >= count {
                assert(accounts@[count].user is Some);
            }
            assert(taken[i].pubkey@ == key);
            assert(answers(taken, key));
            lemma_users_with_slot(before.users, taken, slot, i);
            if forall|k: int| i < k < accounts@.len() ==> (#[trigger] accounts@[k]).pubkey@ != key {
                assert forall|j: int| i < j < taken.len() implies (#[trigger] taken[j]).pubkey@
                    != taken[i].pubkey@ by {
                    assert(taken[j] == accounts@[j]);
                }
                lemma_users_with_last(before.users, taken, slot, i);
            }
        }
        if forall|k: int| 0 <= k < accounts@.len() ==> (#[trigger] accounts@[k]).pubkey@ != key {
            assert(!answers(taken, key)) by {
                if answers(taken, key) {
                    let k = choose|k: int|
                        0 <= k < taken.len() && (#[trigger] taken[k]).pubkey@ == key;
                    assert(accounts@[k].pubkey@ == key);
                }
            }
            if before.users.contains_key(key) {
                lemma_users_with_others(before.users, taken, slot, key);
            }
        }
    }
}

proof fn lemma_users_with_slot(
    users: Map<Seq<char>, AccountView>,
    accounts: Seq<SyncedAccount>,
    slot: u64,
    i: int,
)
    requires
        0 <= i < accounts.len(),
    ensures
        users_with(users, accounts, slot)[accounts[i].pubkey@].slot == slot,
    decreases accounts.len(),
{
    if i < accounts.len() - 1 {
        let rest = accounts.drop_last();
        assert(rest[i] == accounts[i]);
        lemma_users_with_slot(users, rest, slot, i);
    }
}

/// The accounts that are followed.
pub struct Usermap {
    subscribed: bool,
    index: DashMap<String, usize, RandomState>,
    accounts: Vec<DataAndSlot<User>>,
    latest_slot: u64,
}

impl View for Usermap {
    type V = UsermapView;

    closed spec fn view(&self) -> UsermapView {
        UsermapView {
            subscribed: self.subscribed,
            users: text_positions(self.index).map_values(
                |position: usize| self.accounts@[position as int]@,
            ),
            latest_slot: self.latest_slot,
        }
    }
}

impl Usermap {
    /// Whether every address has an account of its own.
    pub closed spec fn wf(&self) -> bool {
        let positions = text_positions(self.index);
        &&& forall|key: Seq<char>| #[trigger]
            positions.contains_key(key) ==> positions[key] < self.accounts@.len()
        &&& forall|a: Seq<char>, b: Seq<char>| #[trigger]
            positions.contains_key(a) && #[trigger] positions.contains_key(b) && a != b
                ==> positions[a] != positions[b]
    }

    /// Makes a map that follows no account.
    pub fn new() -> (usermap: Usermap)
        ensures
            usermap.wf(),
            usermap@ == (UsermapView {
                subscribed: false,
                users: Map::<Seq<char>, AccountView>::empty(),
                latest_slot: 0,
            }),
    {
        let usermap = Usermap {
            subscribed: false,
            index: text_index_new(),
            accounts: Vec::new(),
            latest_slot: 0,
        };
        assert(usermap@.users =~= Map::<Seq<char>, AccountView>::empty());
        usermap
    }

    /// Sets what is known of an account.
    fn insert(&mut self, pubkey: String, data_and_slot: DataAndSlot<User>)
        requires
            old(self).wf(),
        ensures
            final(self).wf(),
            final(self)@ == (UsermapView {
                users: old(self)@.users.insert(pubkey@, data_and_slot@),
                ..old(self)@
            }),
    {
        let ghost key = pubkey@;
        match text_index_get(&self.index, pubkey.as_str()) {
            Some(position) => {
                self.accounts.set(position, data_and_slot);
            },
            None => {
                let position: usize = self.accounts.len();
                self.accounts.push(data_and_slot);
                text_index_insert(&mut self.index, pubkey, position);
            },
        }
        assert(self@.users =~= old(self)@.users.insert(key, data_and_slot@));
    }

    /// Counts the accounts.
    pub fn size(&self) -> (size: usize)
        ensures
            size == self@.users.len(),
    {
        assert(self@.users.dom() =~= text_positions(self.index).dom());
        text_index_len(&self.index)
    }

    /// Says whether an account is there.
    pub fn contains(&self, pubkey: &str) -> (found: bool)
        ensures
            found == self@.users.contains_key(pubkey@),
    {
        text_index_contains(&self.index, pubkey)
    }

    /// Gives what is known of an account.
    pub fn get(&self, pubkey: &str) -> (data_and_slot: Option<DataAndSlot<User>>)
        requires
            self.wf(),
        ensures
            match data_and_slot {
                Some(account) => self@.users.contains_key(pubkey@) && account@
                    == self@.users[pubkey@],
                None => !self@.users.contains_key(pubkey@),
            },
    {
        match text_index_get(&self.index, pubkey) {
            Some(position) => {
                let account = &self.accounts[position];
                Some(DataAndSlot { slot: account.slot, data: account.data.clone() })
            },
            None => None,
        }
    }

    /// Lists the addresses of the accounts, in no set order.
    pub fn keys(&self) -> (keys: Vec<String>)
        ensures
            spells(keys@, self@.users),
    {
        text_index_keys(&self.index)
    }

    /// Gives the latest slot that an account was seen in.
    pub fn get_latest_slot(&self) -> (latest_slot: u64)
        ensures
            latest_slot == self@.latest_slot,
    {
        self.latest_slot
    }

    /// Says whether the stream of account updates is open.
    pub fn is_subscribed(&self) -> (subscribed: bool)
        ensures
            subscribed == self@.subscribed,
    {
        self.subscribed
    }

    /// Says what is to be done next for a subscription: request the accounts where
    /// none is at hand, open the stream where it is not, and listen to it.
    pub fn subscribe(&mut self, event: SubscribeEvent) -> (action: SubscribeAction)
        requires
            old(self).wf(),
        ensures
            final(self).wf(),
            final(self)@ == subscribe_step(old(self)@, event),
            action == subscribe_action(old(self)@, event),
    {
        match event {
            SubscribeEvent::Asked => {
                if self.size() == 0 {
                    return SubscribeAction::Sync;
                }
            },
            SubscribeEvent::Synced => {},
            SubscribeEvent::Connected => {
                self.subscribed = true;
                assert(self@.users =~= old(self)@.users);
            },
        }
        if !self.subscribed {
            SubscribeAction::Connect
        } else {
            SubscribeAction::Listen
        }
    }

    /// Says what is to be done next for the end of a subscription: close the
    /// stream where it is open. Once it is closed the accounts are forgotten.
    pub fn unsubscribe(&mut self, event: UnsubscribeEvent) -> (action: UnsubscribeAction)
        requires
            old(self).wf(),
        ensures
            final(self).wf(),
            final(self)@ == unsubscribe_step(old(self)@, event),
            action == unsubscribe_action(old(self)@, event),
    {
        match event {
            UnsubscribeEvent::Asked => if self.subscribed {
                UnsubscribeAction::Disconnect
            } else {
                UnsubscribeAction::Finish
            },
            UnsubscribeEvent::Disconnected => {
                self.subscribed = false;
                text_index_clear(&mut self.index);
                self.accounts.clear();
                assert(self@.users =~= Map::<Seq<char>, AccountView>::empty());
                UnsubscribeAction::Finish
            },
        }
    }

    /// Takes over an update of an account.
    pub fn update(&mut self, pubkey: String, data_and_slot: DataAndSlot<User>)
        requires
            old(self).wf(),
        ensures
            final(self).wf(),
            final(self)@ == updated(old(self)@, pubkey@, data_and_slot@),
    {
        if data_and_slot.slot > self.latest_slot {
            self.latest_slot = data_and_slot.slot;
        }
        assert(self@.users =~= old(self)@.users);
        self.insert(pubkey, data_and_slot);
    }

    /// Takes over an answer to a request for all accounts. The accounts before the
    /// first that cannot be decoded are taken over even where there is one.
    pub fn sync(&mut self, response: SyncResponse) -> (result: Result<(), SyncError>)
        requires
            old(self).wf(),
        ensures
            final(self).wf(),
            synced(old(self)@, response, final(self)@, result),
    {
        match response {
            SyncResponse::Context { slot, accounts } => {
                let mut i: usize = 0;
                assert(accounts@.take(0) =~= Seq::<SyncedAccount>::empty());
                while i < accounts.len()
                    invariant
                        i <= accounts@.len(),
                        response == (SyncResponse::Context { slot, accounts }),
                        self.wf(),
                        decoded(accounts@, i as int),
                        self@ == (UsermapView {
                            users: users_with(
                                old(self)@.users,
                                accounts@.take(i as int),
                                slot,
                            ),
                            ..old(self)@
                        }),
                    decreases accounts@.len() - i,
                {
                    let data = match &accounts[i].user {
                        Some(user) => user.clone(),
                        None => {
                            assert(accounts@[i as int].user is None);
                            return Err(SyncError::Decode);
                        },
                    };
                    let pubkey = accounts[i].pubkey.clone();
                    self.insert(pubkey, DataAndSlot { slot, data });
                    proof {
                        assert(accounts@.take(i + 1).drop_last() =~= accounts@.take(i as int));
                        assert(accounts@.take(i + 1).last() == accounts@[i as int]);
                    }
                    i += 1;
                }
                assert(accounts@.take(i as int) =~= accounts@);
                let ghost users = self@.users;
                self.latest_slot = slot;
                assert(self@.users =~= users);
                Ok(())
            },
            SyncResponse::NoContext => Ok(()),
        }
    }

    /// Looks up an account that must be there, and says which one to fetch where
    /// it is not at hand.
    pub fn must_get(&self, pubkey: &str) -> (lookup: Lookup)
        requires
            self.wf(),
        ensures
            match lookup {
                Lookup::Found(account) => self@.users.contains_key(pubkey@) && account@
                    == self@.users[pubkey@],
                Lookup::Fetch(key) => !self@.users.contains_key(pubkey@) && pubkey_of_text(pubkey@)
                    == Some(key.bytes@),
                Lookup::NotAnAddress => !self@.users.contains_key(pubkey@) && pubkey_of_text(
                    pubkey@,
                ) is None,
            },
    {
        if let Some(data_and_slot) = self.get(pubkey) {
            return Lookup::Found(data_and_slot);
        }
        match Pubkey::from_text(pubkey) {
            Some(key) => Lookup::Fetch(key),
            None => Lookup::NotAnAddress,
        }
    }

    /// Takes over an account that was fetched. It counts as seen in no slot.
    pub fn store_fetched(&mut self, pubkey: &str, user: User) -> (data_and_slot: DataAndSlot<User>)
        requires
            old(self).wf(),
        ensures
            final(self).wf(),
            data_and_slot@ == (AccountView { slot: 0, orders: user.orders@ }),
            final(self)@ == fetched(old(self)@, pubkey@, user.orders@),
    {
        let data_and_slot = DataAndSlot { slot: 0, data: user.clone() };
        self.insert(String::from_str(pubkey), DataAndSlot { slot: 0, data: user });
        data_and_slot
    }
}

impl Default for Usermap {
    fn default() -> (usermap: Self)
        ensures
            usermap.wf(),
            usermap@ == (UsermapView {
                subscribed: false,
                users: Map::<Seq<char>, AccountView>::empty(),
                latest_slot: 0,
            }),
    {
        Usermap::new()
    }
}

} // verus!
