use flock::ws::{
    FrameAction, InboundFrame, MyWs, WsCommand, WsMessage, PING_TTL_SECONDS, RUN_INTERVAL_SEC,
};

#[test]
fn idle_connection_is_closed_on_the_next_check() {
    // no activity after accept at t=1000; checks run every 15 seconds
    let conn = MyWs::new("sock".to_string(), 1000);
    let mut check = 1000 + RUN_INTERVAL_SEC;
    while check <= 1000 + PING_TTL_SECONDS {
        assert!(!conn.is_expired(check));
        check += RUN_INTERVAL_SEC;
    }
    // first check after more than 30 idle seconds: 1045
    assert_eq!(check, 1045);
    assert!(conn.is_expired(check));
}

#[test]
fn connection_that_pings_within_the_window_is_never_closed() {
    let mut conn = MyWs::new("sock".to_string(), 1000);
    let mut now = 1000;
    // the client pings every 20 seconds, well within the 30-second window
    for _ in 0..10 {
        now += 20;
        let act = conn.handle_frame(InboundFrame::Text("{\"type\":\"Ping\"}".to_string()), now);
        assert_eq!(act, FrameAction::Pong(Vec::new()));
        // each 15-second check between activities finds the connection live
        assert!(!conn.is_expired(now + 15));
        assert!(!conn.is_expired(now + 30));
    }
    assert!(conn.is_expired(now + 31));
}

#[test]
fn protocol_ping_is_answered_with_same_payload() {
    let mut conn = MyWs::new("sock".to_string(), 0);
    let act = conn.handle_frame(InboundFrame::Ping(vec![1, 2, 3]), 5);
    assert_eq!(act, FrameAction::Pong(vec![1, 2, 3]));
    assert_eq!(conn.last_updated_timestamp, 5);
}

#[test]
fn commands_are_dispatched_and_garbage_closes() {
    let mut conn = MyWs::new("sock".to_string(), 0);
    let act = conn.handle_frame(
        InboundFrame::Text(
            "{\"type\":\"Subscribe\",\"topic\":\"orders\",\"request_id\":\"r1\"}".to_string(),
        ),
        1,
    );
    assert_eq!(
        act,
        FrameAction::Dispatch(WsCommand::Subscribe {
            topic: "orders".to_string(),
            request_id: "r1".to_string()
        })
    );
    let act = conn.handle_frame(InboundFrame::Text("gibberish".to_string()), 2);
    assert_eq!(act, FrameAction::CloseInvalid);
    let act = conn.handle_frame(InboundFrame::Close, 3);
    assert_eq!(act, FrameAction::ClosePeer);
    let act = conn.handle_frame(InboundFrame::Other, 4);
    assert_eq!(act, FrameAction::Ignore);
}

#[test]
fn create_subscription_response_matches_wire_format() {
    let got = MyWs::create_subscription_response("orders".to_string(), "r9".to_string(), true);
    assert_eq!(
        got,
        "{\"request_id\":\"r9\",\"subscribed\":true,\"topic\":\"orders\",\"type\":\"response\"}"
    );
}

#[test]
fn outbound_messages_render_to_wire_text() {
    assert_eq!(
        MyWs::render_ws_message(WsMessage::Text("{\"x\":1}".to_string())),
        "{\"x\":1}"
    );
    assert_eq!(
        MyWs::render_ws_message(WsMessage::Subscription {
            topic: "orders".to_string(),
            request_id: "r1".to_string(),
            subscribed: false,
        }),
        "{\"request_id\":\"r1\",\"subscribed\":false,\"topic\":\"orders\",\"type\":\"response\"}"
    );
}
