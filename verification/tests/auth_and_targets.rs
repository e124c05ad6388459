use flock::auth::check_auth;
use flock::broker::{
    remove_from_topic_command, store_reply_status, subscribe_commands, target_from_reply,
    unsubscribe_commands, StoreCmd, StoreReply,
};
use flock::client::{interpret_publish_status, publish_url, TrafficControlClientError};
use flock::config::AuthInfo;
use flock::error::FlockError;
use flock::target_info::TargetInfo;

fn creds() -> AuthInfo {
    AuthInfo { username: "admin".to_string(), password: "password".to_string() }
}

fn header(s: &str) -> Vec<u8> {
    s.as_bytes().to_vec()
}

#[test]
fn accepts_matching_basic_credentials() {
    // base64 of "admin:password"
    let auth_header = header("Basic YWRtaW46cGFzc3dvcmQ=");
    let r = check_auth(Some(&auth_header), None, &creds());
    assert_eq!(r.unwrap().is_replicated, false);
}

#[test]
fn replication_marker_is_carried_through() {
    let auth_header = header("Basic YWRtaW46cGFzc3dvcmQ=");
    let repl = header("TRUE");
    let r = check_auth(Some(&auth_header), Some(&repl), &creds());
    assert_eq!(r.unwrap().is_replicated, true);
    let repl = header("false");
    let r = check_auth(Some(&auth_header), Some(&repl), &creds());
    assert_eq!(r.unwrap().is_replicated, false);
}

#[test]
fn rejects_bad_or_missing_credentials() {
    // base64 of "admin:wrong"
    let bad = header("Basic YWRtaW46d3Jvbmc=");
    assert_eq!(check_auth(Some(&bad), None, &creds()), Err(FlockError::Unauthorized));
    assert_eq!(check_auth(None, None, &creds()), Err(FlockError::Unauthorized));
    let no_scheme = header("YWRtaW46cGFzc3dvcmQ=");
    assert_eq!(check_auth(Some(&no_scheme), None, &creds()), Err(FlockError::Unauthorized));
    let wrong_scheme = header("Bearer YWRtaW46cGFzc3dvcmQ=");
    assert_eq!(check_auth(Some(&wrong_scheme), None, &creds()), Err(FlockError::Unauthorized));
    let not_base64 = header("Basic ???");
    assert_eq!(check_auth(Some(&not_base64), None, &creds()), Err(FlockError::Unauthorized));
    // base64 of "adminpassword", no colon inside
    let no_colon = header("Basic YWRtaW5wYXNzd29yZA==");
    assert_eq!(check_auth(Some(&no_colon), None, &creds()), Err(FlockError::Unauthorized));
}

#[test]
fn rejects_non_ascii_replication_header() {
    let auth_header = header("Basic YWRtaW46cGFzc3dvcmQ=");
    let repl: Vec<u8> = vec![0xFF, 0xFE];
    assert_eq!(
        check_auth(Some(&auth_header), Some(&repl), &creds()),
        Err(FlockError::Unauthorized)
    );
}

#[test]
fn parses_and_renders_target_addresses() {
    let t = TargetInfo::from_str("localhost:8081").unwrap();
    assert_eq!(t.host, "localhost");
    assert_eq!(t.port, 8081);
    assert_eq!(t.to_text(), "localhost:8081");

    assert_eq!(TargetInfo::from_str("nocolon"), Err(FlockError::InternalError));
    assert_eq!(TargetInfo::from_str("a:b"), Err(FlockError::InternalError));
    assert_eq!(TargetInfo::from_str("a:99999"), Err(FlockError::InternalError));
    assert_eq!(TargetInfo::from_str("a:1:2"), Err(FlockError::InternalError));
    let plus = TargetInfo::from_str("a:+80").unwrap();
    assert_eq!(plus.port, 80);
}

#[test]
fn reads_targets_out_of_store_replies() {
    let t = target_from_reply(&StoreReply::Simple("gw1:8081".to_string())).unwrap();
    assert_eq!(t.to_text(), "gw1:8081");
    let t = target_from_reply(&StoreReply::Bulk(b"gw2:9000".to_vec())).unwrap();
    assert_eq!(t.to_text(), "gw2:9000");
    assert!(target_from_reply(&StoreReply::Integer(3)).is_err());
    assert!(target_from_reply(&StoreReply::Bulk(vec![0xFF])).is_err());
}

#[test]
fn store_commands_use_the_two_index_keys() {
    let target = TargetInfo { host: "gw1".to_string(), port: 8081 };
    let cmds = subscribe_commands(&"orders".to_string(), &target);
    assert_eq!(cmds, vec![
        StoreCmd::SAdd { key: "topic:orders".to_string(), member: "gw1:8081".to_string() },
        StoreCmd::SAdd { key: "subscription:gw1:8081".to_string(), member: "orders".to_string() },
    ]);
    let cmds = unsubscribe_commands(&"orders".to_string(), &target);
    assert_eq!(cmds, vec![
        StoreCmd::SRem { key: "topic:orders".to_string(), member: "gw1:8081".to_string() },
        StoreCmd::SRem { key: "subscription:gw1:8081".to_string(), member: "orders".to_string() },
    ]);
    let srem =
        remove_from_topic_command(&"gw1:8081".to_string(), &StoreReply::Bulk(b"orders".to_vec()));
    assert_eq!(
        srem,
        Ok(StoreCmd::SRem { key: "topic:orders".to_string(), member: "gw1:8081".to_string() })
    );
    assert_eq!(
        remove_from_topic_command(&"gw1:8081".to_string(), &StoreReply::Nil),
        Err(FlockError::InternalError)
    );
}

#[test]
fn set_mutation_replies_decide_the_status() {
    assert_eq!(store_reply_status(&vec![StoreReply::Integer(1), StoreReply::Integer(0)]), 200);
    assert_eq!(store_reply_status(&vec![StoreReply::Integer(1), StoreReply::Failure]), 500);
    assert_eq!(store_reply_status(&Vec::new()), 200);
}

#[test]
fn client_publish_url_and_status_interpretation() {
    assert_eq!(
        publish_url(&"http://broker:8080".to_string(), &"orders".to_string()),
        "http://broker:8080/api/v1/event/orders"
    );
    assert_eq!(interpret_publish_status(204), Ok(()));
    assert_eq!(interpret_publish_status(401), Err(TrafficControlClientError::Unauthorized));
    assert_eq!(interpret_publish_status(500), Err(TrafficControlClientError::InternalError));
    assert_eq!(interpret_publish_status(200), Err(TrafficControlClientError::InternalError));
}

#[test]
fn error_codes_and_messages() {
    assert_eq!(FlockError::InternalError.status_code(), 500);
    assert_eq!(FlockError::BadRequest.status_code(), 400);
    assert_eq!(FlockError::Unauthorized.status_code(), 401);
    assert_eq!(FlockError::InternalError.message(), "Internal Server Error");
    assert_eq!(FlockError::BadRequest.message(), "Bad Request");
}

#[test]
fn clock_reads_seconds_since_epoch() {
    let now = flock::time::get_time_since_epoch().unwrap();
    assert!(now > 1_600_000_000);
}

#[test]
fn broker_urls_are_built_from_target_and_topic() {
    let target = TargetInfo { host: "gw1".to_string(), port: 8081 };
    assert_eq!(
        flock::broker::event_url(&target, &"orders".to_string()),
        "http://gw1:8081/api/v1/event/orders"
    );
    assert_eq!(
        flock::broker::subscription_url(&"broker:8080".to_string(), &"orders".to_string()),
        "http://broker:8080/api/v1/subscription/orders"
    );
    assert_eq!(
        flock::broker::reset_url(&"broker:8080".to_string()),
        "http://broker:8080/api/v1/subscription"
    );
}
