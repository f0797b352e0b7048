//! The subscription to the accounts that have orders.

use vstd::prelude::*;

use crate::usermap::{
    subscribe_action, subscribe_step, unsubscribe_action, unsubscribe_step, AccountView,
    SubscribeAction, SubscribeEvent, UnsubscribeAction, UnsubscribeEvent, Usermap, UsermapView,
};

verus! {

/// What is to be done next for the subscription, or nothing where one is asked for that
/// has started.
pub open spec fn order_subscribe_action(
    before: UsermapView,
    event: SubscribeEvent,
) -> Option<SubscribeAction> {
    if event == SubscribeEvent::Asked && before.subscribed {
        None
    } else {
        Some(subscribe_action(before, event))
    }
}

/// A subscription that is on is not started again. One that is off starts with a request
/// for the accounts where none is known and with the stream where some are, and then
/// goes on until the stream is listened to.
pub proof fn lemma_how_an_order_subscription_goes(before: UsermapView)
    ensures
        order_subscribe_action(before, SubscribeEvent::Asked) is None <==> before.subscribed,
        !before.subscribed && before.users.len() == 0 ==> order_subscribe_action(
            before,
            SubscribeEvent::Asked,
        ) == Some(SubscribeAction::Sync),
        !before.subscribed && before.users.len() > 0 ==> order_subscribe_action(
            before,
            SubscribeEvent::Asked,
        ) == Some(SubscribeAction::Connect),
        !before.subscribed ==> order_subscribe_action(before, SubscribeEvent::Synced) == Some(
            SubscribeAction::Connect,
        ),
        before.subscribed ==> order_subscribe_action(before, SubscribeEvent::Synced) == Some(
            SubscribeAction::Listen,
        ),
        order_subscribe_action(before, SubscribeEvent::Connected) == Some(SubscribeAction::Listen),
{
}

/// A subscription to the accounts that have orders.
pub struct OrderSubscriber {
    pub subscriber: Usermap,
}

impl OrderSubscriber {
    /// The name under which the updates of the accounts are handed on.
    pub const SUBSCRIPTION_ID: &'static str = "order";

    /// Makes a subscription that has not started.
    pub fn new() -> (order_subscriber: OrderSubscriber)
        ensures
            order_subscriber.subscriber.wf(),
            order_subscriber.subscriber@ == (UsermapView {
                subscribed: false,
                users: Map::<Seq<char>, AccountView>::empty(),
                latest_slot: 0,
            }),
    {
        OrderSubscriber { subscriber: Usermap::new() }
    }

    /// Says what is to be done next for the subscription, or nothing where one is
    /// asked for that has started.
    pub fn subscribe(&mut self, event: SubscribeEvent) -> (action: Option<SubscribeAction>)
        requires
            old(self).subscriber.wf(),
        ensures
            final(self).subscriber.wf(),
            final(self).subscriber@ == subscribe_step(old(self).subscriber@, event),
            action == order_subscribe_action(old(self).subscriber@, event),
    {
        if event == SubscribeEvent::Asked && self.subscriber.is_subscribed() {
            return None;
        }
        Some(self.subscriber.subscribe(event))
    }

    /// Says what is to be done next for the end of the subscription.
    pub fn unsubscribe(&mut self, event: UnsubscribeEvent) -> (action: UnsubscribeAction)
        requires
            old(self).subscriber.wf(),
        ensures
            final(self).subscriber.wf(),
            final(self).subscriber@ == unsubscribe_step(old(self).subscriber@, event),
            action == unsubscribe_action(old(self).subscriber@, event),
    {
        self.subscriber.unsubscribe(event)
    }
}

} // verus!
