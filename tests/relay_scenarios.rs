use discord_relay::relay::{IngressAction, Relay};

fn sorted(mut v: Vec<u32>) -> Vec<u32> {
    v.sort();
    v
}

fn post_of(action: IngressAction) -> (u64, String) {
    match action {
        IngressAction::Post(m) => (m.channel_id, m.content),
        IngressAction::KeepAlive => panic!("expected a post, got a keep-alive"),
        IngressAction::Malformed => panic!("expected a post, got a malformed frame"),
    }
}

#[test]
fn fan_out_to_two_peers() {
    let mut relay = Relay::new();
    assert!(matches!(relay.handle_frame(Some(1), b"\"KeepAlive\""), IngressAction::KeepAlive));
    assert!(matches!(relay.handle_frame(Some(2), b"\"KeepAlive\""), IngressAction::KeepAlive));
    assert_eq!(relay.peer_count(), 2);
    let fan = relay.chat_event(42, "hi".to_string());
    assert_eq!(fan.frame, "{\"Message\":{\"channel_id\":42,\"content\":\"hi\"}}");
    assert_eq!(sorted(fan.targets.clone()), vec![1, 2]);
    let delivered = vec![true; fan.targets.len()];
    relay.complete_fan_out(&fan.targets, &delivered);
    assert!(relay.is_registered(1));
    assert!(relay.is_registered(2));
    assert_eq!(relay.peer_count(), 2);
}

#[test]
fn eviction_on_send_failure() {
    let mut relay = Relay::new();
    relay.handle_frame(Some(1), b"\"KeepAlive\"");
    relay.handle_frame(Some(2), b"\"KeepAlive\"");
    let fan = relay.chat_event(7, "x".to_string());
    assert_eq!(fan.frame, "{\"Message\":{\"channel_id\":7,\"content\":\"x\"}}");
    let delivered: Vec<bool> = fan.targets.iter().map(|p| *p != 2).collect();
    relay.complete_fan_out(&fan.targets, &delivered);
    assert!(relay.is_registered(1));
    assert!(!relay.is_registered(2));
    assert_eq!(relay.peer_count(), 1);
    let second = relay.chat_event(7, "y".to_string());
    assert_eq!(second.targets, vec![1]);
}

#[test]
fn all_sends_fail_empties_registry() {
    let mut relay = Relay::new();
    relay.handle_frame(Some(5), b"\"KeepAlive\"");
    relay.handle_frame(Some(6), b"\"KeepAlive\"");
    let fan = relay.chat_event(1, "z".to_string());
    let delivered = vec![false; fan.targets.len()];
    relay.complete_fan_out(&fan.targets, &delivered);
    assert_eq!(relay.peer_count(), 0);
}

#[test]
fn peer_to_chat_send() {
    let mut relay = Relay::new();
    let action = relay.handle_frame(Some(1), b"{\"Message\":{\"channel_id\":100,\"content\":\"hello\"}}");
    assert_eq!(post_of(action), (100, "hello".to_string()));
    assert!(relay.is_registered(1));
}

#[test]
fn malformed_frame_changes_nothing() {
    let mut relay = Relay::new();
    relay.handle_frame(Some(1), b"\"KeepAlive\"");
    assert!(matches!(relay.handle_frame(Some(2), b"not-json"), IngressAction::Malformed));
    assert!(relay.is_registered(1));
    assert!(!relay.is_registered(2));
    assert_eq!(relay.peer_count(), 1);
    let action = relay.handle_frame(Some(2), b"{\"Message\":{\"channel_id\":3,\"content\":\"ok\"}}");
    assert_eq!(post_of(action), (3, "ok".to_string()));
    assert!(relay.is_registered(2));
}

#[test]
fn invalid_utf8_frame_is_malformed() {
    let mut relay = Relay::new();
    assert!(matches!(relay.handle_frame(Some(9), &[0x22, 0xff, 0x22]), IngressAction::Malformed));
    assert_eq!(relay.peer_count(), 0);
}

#[test]
fn frame_without_sender_registers_nobody() {
    let mut relay = Relay::new();
    assert!(matches!(relay.handle_frame(None, b"\"KeepAlive\""), IngressAction::KeepAlive));
    assert_eq!(relay.peer_count(), 0);
}

#[test]
fn repeated_keep_alive_registers_once() {
    let mut relay = Relay::new();
    relay.handle_frame(Some(4), b"\"KeepAlive\"");
    relay.handle_frame(Some(4), b"\"KeepAlive\"");
    assert_eq!(relay.peer_count(), 1);
    assert_eq!(relay.chat_event(1, "a".to_string()).targets, vec![4]);
}

#[test]
fn empty_registry_chat_event() {
    let mut relay = Relay::new();
    let fan = relay.chat_event(42, "hi".to_string());
    assert!(fan.targets.is_empty());
    relay.complete_fan_out(&fan.targets, &Vec::new());
    assert_eq!(relay.peer_count(), 0);
}

#[test]
fn registration_is_seen_by_next_fan_out() {
    let mut relay = Relay::new();
    relay.handle_frame(Some(1), b"\"KeepAlive\"");
    let fan = relay.chat_event(8, "slow".to_string());
    assert_eq!(fan.targets, vec![1]);
    relay.handle_frame(Some(2), b"\"KeepAlive\"");
    relay.complete_fan_out(&fan.targets, &vec![true]);
    let next = relay.chat_event(8, "next".to_string());
    assert_eq!(sorted(next.targets), vec![1, 2]);
}

#[test]
fn spaced_json_frame_is_posted() {
    let mut relay = Relay::new();
    let action = relay.handle_frame(Some(3), b"{\"Message\": {\"channel_id\": 100, \"content\": \"hello\"}}");
    assert_eq!(post_of(action), (100, "hello".to_string()));
    assert!(relay.is_registered(3));
}
