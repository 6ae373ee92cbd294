use screen_mirror::discovery::browser::DiscoveredReceiver;
use screen_mirror::protocol::pin_check::{
    match_event, pin_check_response, pin_reply_event, verdict_on, verify_pin_url, PinResponse,
};
use screen_mirror::ui::messages::BackendEvent;

type Event = BackendEvent<u32, ()>;

fn some(s: &str) -> Option<String> {
    Some(s.to_string())
}

#[test]
fn matching_pin_is_answered_with_200() {
    let r = pin_check_response(true, "/verify-pin", some(r#"{"pin":"123456"}"#), "123456");
    assert_eq!(r, PinResponse::Matched);
    assert_eq!(r.status_code(), 200);
}

#[test]
fn other_pins_and_bodies_are_forbidden() {
    let r = pin_check_response(true, "/verify-pin", some(r#"{"pin":"654321"}"#), "123456");
    assert_eq!(r, PinResponse::Forbidden);
    assert_eq!(r.status_code(), 403);
    assert_eq!(pin_check_response(true, "/verify-pin", some("not json"), "123456"), PinResponse::Forbidden);
    assert_eq!(pin_check_response(true, "/verify-pin", some(r#"{"pin":123456}"#), "123456"), PinResponse::Forbidden);
    assert_eq!(pin_check_response(true, "/verify-pin", some(r#"["123456"]"#), "123456"), PinResponse::Forbidden);
    assert_eq!(pin_check_response(true, "/verify-pin", some("{}"), ""), PinResponse::Forbidden);
}

#[test]
fn unreadable_body_is_a_bad_request() {
    let r = pin_check_response(true, "/verify-pin", None, "123456");
    assert_eq!(r, PinResponse::BadRequest);
    assert_eq!(r.status_code(), 400);
}

#[test]
fn other_methods_and_paths_are_not_found() {
    let r = pin_check_response(false, "/verify-pin", some(r#"{"pin":"123456"}"#), "123456");
    assert_eq!(r, PinResponse::NotFound);
    assert_eq!(r.status_code(), 404);
    assert_eq!(pin_check_response(true, "/verify", some(r#"{"pin":"123456"}"#), "123456"), PinResponse::NotFound);
    assert_eq!(pin_check_response(true, "/verify-pin/", None, "123456"), PinResponse::NotFound);
}

#[test]
fn verdict_on_parsed_bodies() {
    assert_eq!(verdict_on(Some(some("1")), "1"), PinResponse::Matched);
    assert_eq!(verdict_on(Some(some("1")), "2"), PinResponse::Forbidden);
    assert_eq!(verdict_on(Some(None), "1"), PinResponse::Forbidden);
    assert_eq!(verdict_on(None, "1"), PinResponse::Forbidden);
}

fn device() -> DiscoveredReceiver<u32> {
    DiscoveredReceiver { name: "Found Name".to_string(), addr: 42 }
}

#[test]
fn reply_with_a_name_matches_under_that_name() {
    let e: Option<Event> = pin_reply_event(&device(), some(r#"{"device_name":"Living Room"}"#));
    match e {
        Some(BackendEvent::PinMatched { device_name, addr }) => {
            assert_eq!(device_name, "Living Room");
            assert_eq!(addr, 42);
        }
        other => panic!("unexpected {:?}", other),
    }
}

#[test]
fn reply_without_a_name_matches_under_the_found_name() {
    let e: Option<Event> = pin_reply_event(&device(), some("{}"));
    assert!(matches!(e, Some(BackendEvent::PinMatched { ref device_name, addr: 42 }) if device_name == "Found Name"));
    let e: Option<Event> = pin_reply_event(&device(), some("null"));
    assert!(matches!(e, Some(BackendEvent::PinMatched { .. })));
}

#[test]
fn failed_or_unparsable_replies_ask_the_next_receiver() {
    let e: Option<Event> = pin_reply_event(&device(), None);
    assert!(e.is_none());
    let e: Option<Event> = pin_reply_event(&device(), some("<html>"));
    assert!(e.is_none());
}

#[test]
fn match_event_on_parsed_replies() {
    let e: Option<Event> = match_event(&device(), Some(some("X")));
    assert!(matches!(e, Some(BackendEvent::PinMatched { ref device_name, .. }) if device_name == "X"));
    let e: Option<Event> = match_event(&device(), Some(None));
    assert!(matches!(e, Some(BackendEvent::PinMatched { ref device_name, .. }) if device_name == "Found Name"));
    let e: Option<Event> = match_event(&device(), None);
    assert!(e.is_none());
}

#[test]
fn verify_pin_url_format() {
    assert_eq!(verify_pin_url([192, 168, 1, 20], 8080), "http://192.168.1.20:8080/verify-pin");
    assert_eq!(verify_pin_url([0, 0, 0, 0], 0), "http://0.0.0.0:0/verify-pin");
}
