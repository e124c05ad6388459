use flock::auth::AuthorizedReq;
use flock::broker;
use flock::directory::DirectoryStore;
use flock::dispatcher::{Dispatcher, DispatcherMessage, DispatcherOutcome};
use flock::target_info::TargetInfo;
use flock::ws::WsMessage;

fn authed() -> AuthorizedReq {
    AuthorizedReq { is_replicated: false }
}

fn gateway_addr() -> TargetInfo {
    TargetInfo { host: "gw1".to_string(), port: 8081 }
}

/// Client A subscribes to "orders" as first subscriber; the gateway notifies
/// the broker; the directory then maps the topic to the gateway's address,
/// and a publish reaches A's socket with the payload unchanged inside an
/// event envelope.
#[test]
fn first_subscriber_reaches_broker_and_publish_reaches_socket() {
    let mut gw: Dispatcher<u32> = Dispatcher::new();
    let mut store = DirectoryStore::new();

    gw.handle(DispatcherMessage::RegisterWS { socket_id: "a".to_string(), addr: 7 });
    let out = gw.handle(DispatcherMessage::Subscribe {
        socket_id: "a".to_string(),
        topic: "orders".to_string(),
        request_id: "r1".to_string(),
    });
    match out {
        DispatcherOutcome::Subscribed { notify_broker, reply } => {
            assert!(notify_broker);
            assert_eq!(
                reply,
                Some(WsMessage::Subscription {
                    topic: "orders".to_string(),
                    request_id: "r1".to_string(),
                    subscribed: true
                })
            );
        }
        other => panic!("unexpected outcome {:?}", other),
    }

    // the gateway's broker client records the subscription
    let code = broker::subscribe(&authed(), &mut store, &"orders".to_string(), &gateway_addr());
    assert_eq!(code, 200);
    assert_eq!(broker::publish(&authed(), &store, &"orders".to_string()), vec![
        "gw1:8081".to_string()
    ]);

    // the fan-out hits the gateway's event endpoint and the event reaches A
    let out = gw.handle(DispatcherMessage::Event(flock::types::Event {
        topic: "orders".to_string(),
        message: "{\"price\":42}".to_string(),
    }));
    match out {
        DispatcherOutcome::Broadcast { frame, recipients } => {
            assert_eq!(
                frame,
                Some("{\"payload\":{\"price\":42},\"topic\":\"orders\",\"type\":\"event\"}"
                    .to_string())
            );
            assert_eq!(recipients, vec!["a".to_string()]);
            assert_eq!(gw.get_handle(&"a".to_string()), Some(&7));
        }
        other => panic!("unexpected outcome {:?}", other),
    }
}

/// Two clients on one gateway subscribe to the same topic: the broker hears
/// about the first subscribe and about the last unsubscribe, nothing else.
#[test]
fn broker_hears_only_structural_transitions() {
    let mut gw: Dispatcher<u32> = Dispatcher::new();
    let mut store = DirectoryStore::new();
    gw.handle(DispatcherMessage::RegisterWS { socket_id: "a".to_string(), addr: 1 });
    gw.handle(DispatcherMessage::RegisterWS { socket_id: "b".to_string(), addr: 2 });

    let sub = |gw: &mut Dispatcher<u32>, who: &str| {
        gw.handle(DispatcherMessage::Subscribe {
            socket_id: who.to_string(),
            topic: "orders".to_string(),
            request_id: "r".to_string(),
        })
    };
    let unsub = |gw: &mut Dispatcher<u32>, who: &str| {
        gw.handle(DispatcherMessage::Unsubscribe {
            socket_id: who.to_string(),
            topic: "orders".to_string(),
            request_id: "r".to_string(),
        })
    };
    let notified = |out: DispatcherOutcome| match out {
        DispatcherOutcome::Subscribed { notify_broker, .. } => notify_broker,
        DispatcherOutcome::Unsubscribed { notify_broker, .. } => notify_broker,
        other => panic!("unexpected outcome {:?}", other),
    };

    // A first: broker notified once
    assert!(notified(sub(&mut gw, "a")));
    broker::subscribe(&authed(), &mut store, &"orders".to_string(), &gateway_addr());
    // B second: no notification
    assert!(!notified(sub(&mut gw, "b")));
    // B leaves: A still subscribed, broker not notified
    assert!(!notified(unsub(&mut gw, "b")));
    assert_eq!(broker::publish(&authed(), &store, &"orders".to_string()), vec![
        "gw1:8081".to_string()
    ]);
    // A leaves: last unsubscribe, broker notified and the topic key dropped
    assert!(notified(unsub(&mut gw, "a")));
    broker::unsubscribe(&authed(), &mut store, &"orders".to_string(), &gateway_addr());
    assert!(broker::publish(&authed(), &store, &"orders".to_string()).is_empty());
}

/// A gateway crashes and restarts under the same address: its startup reset
/// clears stale directory entries no unsubscribe ever removed.
#[test]
fn restart_reset_clears_stale_directory_entries() {
    let mut store = DirectoryStore::new();
    broker::subscribe(&authed(), &mut store, &"orders".to_string(), &gateway_addr());
    broker::subscribe(&authed(), &mut store, &"trades".to_string(), &gateway_addr());
    broker::subscribe(&authed(), &mut store, &"orders".to_string(), &TargetInfo {
        host: "gw2".to_string(),
        port: 9000,
    });

    // the restarted instance announces itself before serving anything
    let code = broker::reset(&authed(), &mut store, &gateway_addr());
    assert_eq!(code, 200);
    assert_eq!(broker::publish(&authed(), &store, &"orders".to_string()), vec![
        "gw2:9000".to_string()
    ]);
    assert!(broker::publish(&authed(), &store, &"trades".to_string()).is_empty());
}

/// A publish to a topic nobody subscribed to succeeds with no outbound call.
#[test]
fn publish_without_subscribers_fans_out_to_nobody() {
    let store = DirectoryStore::new();
    let targets = broker::publish(&authed(), &store, &"orders".to_string());
    assert!(targets.is_empty());
}

/// A subscribe from a socket the gateway no longer knows is silently
/// ignored: the close race is expected and no error reaches the caller.
#[test]
fn subscribe_after_close_race_is_a_no_op() {
    let mut gw: Dispatcher<u32> = Dispatcher::new();
    let out = gw.handle(DispatcherMessage::Subscribe {
        socket_id: "ghost".to_string(),
        topic: "orders".to_string(),
        request_id: "r1".to_string(),
    });
    assert_eq!(out, DispatcherOutcome::Subscribed { notify_broker: false, reply: None });
}

/// Closing a socket releases every subscription and names exactly the
/// topics whose last subscriber left, so the broker is told once per topic.
#[test]
fn close_releases_subscriptions_and_notifies_once_per_topic() {
    let mut gw: Dispatcher<u32> = Dispatcher::new();
    gw.handle(DispatcherMessage::RegisterWS { socket_id: "a".to_string(), addr: 1 });
    gw.handle(DispatcherMessage::RegisterWS { socket_id: "b".to_string(), addr: 2 });
    for (who, topic) in [("a", "orders"), ("b", "orders"), ("a", "trades")] {
        gw.handle(DispatcherMessage::Subscribe {
            socket_id: who.to_string(),
            topic: topic.to_string(),
            request_id: "r".to_string(),
        });
    }
    let out = gw.handle(DispatcherMessage::Close("a".to_string()));
    match out {
        DispatcherOutcome::Closed { notify_topics } => {
            assert_eq!(notify_topics, vec!["trades".to_string()]);
        }
        other => panic!("unexpected outcome {:?}", other),
    }
    // the socket's handle entry survives a close, as registration owns it
    assert_eq!(gw.get_handle(&"a".to_string()), Some(&1));
}

/// An invalid payload is dropped: the publish still succeeds, nobody is
/// sent anything.
#[test]
fn invalid_payload_is_dropped_not_fatal() {
    let mut gw: Dispatcher<u32> = Dispatcher::new();
    gw.handle(DispatcherMessage::RegisterWS { socket_id: "a".to_string(), addr: 1 });
    gw.handle(DispatcherMessage::Subscribe {
        socket_id: "a".to_string(),
        topic: "orders".to_string(),
        request_id: "r".to_string(),
    });
    let out = gw.handle(DispatcherMessage::Event(flock::types::Event {
        topic: "orders".to_string(),
        message: "not json".to_string(),
    }));
    assert_eq!(out, DispatcherOutcome::Broadcast { frame: None, recipients: Vec::new() });
}

/// Registering the same socket id twice keeps the last handle.
#[test]
fn register_overwrites_previous_handle() {
    let mut gw: Dispatcher<u32> = Dispatcher::new();
    gw.handle(DispatcherMessage::RegisterWS { socket_id: "a".to_string(), addr: 1 });
    gw.handle(DispatcherMessage::RegisterWS { socket_id: "a".to_string(), addr: 2 });
    assert_eq!(gw.get_handle(&"a".to_string()), Some(&2));
    assert_eq!(gw.get_handle(&"b".to_string()), None);
}
