use flock::codec::{
    normalize_json, parse_command, render_event, render_ping_command, render_subscribe_command,
    render_subscription_response, render_unsubscribe_command,
};
use flock::ws::WsCommand;

#[test]
fn parses_ping() {
    assert_eq!(parse_command("{\"type\":\"Ping\"}"), Some(WsCommand::Ping));
}

#[test]
fn parses_subscribe() {
    let got = parse_command("{\"type\":\"Subscribe\",\"topic\":\"orders\",\"request_id\":\"r1\"}");
    assert_eq!(
        got,
        Some(WsCommand::Subscribe { topic: "orders".to_string(), request_id: "r1".to_string() })
    );
}

#[test]
fn parses_unsubscribe() {
    let got =
        parse_command("{\"type\":\"Unsubscribe\",\"topic\":\"orders\",\"request_id\":\"r2\"}");
    assert_eq!(
        got,
        Some(WsCommand::Unsubscribe { topic: "orders".to_string(), request_id: "r2".to_string() })
    );
}

#[test]
fn parses_escapes_in_strings() {
    let got = parse_command(
        "{\"type\":\"Subscribe\",\"topic\":\"a\\\"b\\\\c\\n\\u0041\",\"request_id\":\"r\\/1\"}",
    );
    assert_eq!(
        got,
        Some(WsCommand::Subscribe {
            topic: "a\"b\\c\nA".to_string(),
            request_id: "r/1".to_string()
        })
    );
}

#[test]
fn rejects_unknown_or_malformed_texts() {
    assert_eq!(parse_command(""), None);
    assert_eq!(parse_command("hello"), None);
    assert_eq!(parse_command("{\"type\":\"Pong\"}"), None);
    assert_eq!(parse_command("{\"type\":\"Ping\""), None);
    assert_eq!(parse_command("{\"type\":\"Subscribe\",\"topic\":\"a\"}"), None);
    assert_eq!(parse_command("{\"type\":\"Subscribe\",\"topic\":\"a\",\"request_id\":1}"), None);
    assert_eq!(parse_command("{\"type\":\"Ping\"} "), Some(WsCommand::Ping));
    assert_eq!(parse_command("{\"type\":\"Ping\"}x"), None);
}

#[test]
fn renders_subscription_response() {
    let got = render_subscription_response(&"orders".to_string(), &"r1".to_string(), true);
    assert_eq!(
        got,
        "{\"request_id\":\"r1\",\"subscribed\":true,\"topic\":\"orders\",\"type\":\"response\"}"
    );
    let got = render_subscription_response(&"a\"b".to_string(), &"r\n2".to_string(), false);
    assert_eq!(
        got,
        "{\"request_id\":\"r\\n2\",\"subscribed\":false,\"topic\":\"a\\\"b\",\"type\":\"response\"}"
    );
}

#[test]
fn renders_event_envelope() {
    let got = render_event(&"orders".to_string(), &"{\"price\":42}".to_string());
    assert_eq!(got, "{\"payload\":{\"price\":42},\"topic\":\"orders\",\"type\":\"event\"}");
}

#[test]
fn normalize_json_canonicalizes_or_rejects() {
    assert_eq!(normalize_json("{ \"a\" : 1 }"), Some("{\"a\":1}".to_string()));
    assert_eq!(normalize_json("not json"), None);
}

#[test]
fn client_commands_round_trip_through_the_parser() {
    let sub = render_subscribe_command(&"orders".to_string());
    assert_eq!(sub, "{\"type\":\"Subscribe\",\"topic\":\"orders\",\"request_id\":\"subscribe_message\"}");
    assert_eq!(
        parse_command(&sub),
        Some(WsCommand::Subscribe {
            topic: "orders".to_string(),
            request_id: "subscribe_message".to_string()
        })
    );
    let unsub = render_unsubscribe_command(&"a\"b".to_string());
    assert_eq!(
        parse_command(&unsub),
        Some(WsCommand::Unsubscribe {
            topic: "a\"b".to_string(),
            request_id: "unsubscribe_message".to_string()
        })
    );
    assert_eq!(parse_command(&render_ping_command()), Some(WsCommand::Ping));
}

#[test]
fn parses_whitespace_and_any_member_order() {
    // the browser client serializes with sorted keys: type comes last
    let got = parse_command(
        "{\"request_id\":\"subscribe_message\",\"topic\":\"orders\",\"type\":\"Subscribe\"}",
    );
    assert_eq!(
        got,
        Some(WsCommand::Subscribe {
            topic: "orders".to_string(),
            request_id: "subscribe_message".to_string()
        })
    );
    let got = parse_command(
        " {\n\t\"type\" : \"Unsubscribe\" ,\r\n \"request_id\": \"r7\", \"topic\": \"orders\" } ",
    );
    assert_eq!(
        got,
        Some(WsCommand::Unsubscribe {
            topic: "orders".to_string(),
            request_id: "r7".to_string()
        })
    );
    assert_eq!(parse_command("  { \"type\" : \"Ping\" }  "), Some(WsCommand::Ping));
}

#[test]
fn parses_unicode_escapes_in_the_plane() {
    // Hebrew aleph and a CJK character via \uXXXX
    let got = parse_command(
        "{\"type\":\"Subscribe\",\"topic\":\"\\u05D0\\u4E2D\",\"request_id\":\"r\"}",
    );
    assert_eq!(
        got,
        Some(WsCommand::Subscribe {
            topic: "\u{5D0}\u{4E2D}".to_string(),
            request_id: "r".to_string()
        })
    );
    // lone surrogates stay rejected
    assert_eq!(
        parse_command("{\"type\":\"Subscribe\",\"topic\":\"\\uD800\",\"request_id\":\"r\"}"),
        None
    );
}

#[test]
fn rejects_duplicate_and_missing_members() {
    assert_eq!(
        parse_command("{\"type\":\"Subscribe\",\"type\":\"Ping\",\"request_id\":\"r\"}"),
        None
    );
    assert_eq!(parse_command("{\"topic\":\"orders\",\"request_id\":\"r\"}"), None);
    assert_eq!(parse_command("{\"type\":\"Ping\",\"topic\":\"orders\"}"), None);
}
