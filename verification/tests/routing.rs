use chat_core::broker::Broker;

#[test]
fn an_online_peer_receives_the_formatted_line() {
    let mut b = Broker::new();
    assert!(b.handle_new_peer("alice"));
    b.handle_message("sender", &vec!["alice".to_string()], "hello");
    assert_eq!(b.pop_mail("alice").unwrap(), "sender: hello\n\r");
    assert!(b.pop_mail("alice").is_none());
}

#[test]
fn sending_to_an_unknown_name_changes_nothing() {
    let mut b = Broker::new();
    assert!(b.handle_new_peer("alice"));
    b.handle_message("sender", &vec!["bob".to_string()], "hi");
    assert!(!b.is_online("bob"));
    assert!(b.pop_mail("bob").is_none());
    assert!(b.pop_mail("alice").is_none());
}

#[test]
fn every_named_online_peer_gets_exactly_one_line() {
    let mut b = Broker::new();
    assert!(b.handle_new_peer("alice"));
    assert!(b.handle_new_peer("bob"));
    b.handle_message("carol", &vec!["alice".to_string(), "bob".to_string()], "hi all");
    assert_eq!(b.pop_mail("alice").unwrap(), "carol: hi all\n\r");
    assert_eq!(b.pop_mail("bob").unwrap(), "carol: hi all\n\r");
    assert!(b.pop_mail("alice").is_none());
    assert!(b.pop_mail("bob").is_none());
}

#[test]
fn mailboxes_keep_their_order() {
    let mut b = Broker::new();
    assert!(b.handle_new_peer("alice"));
    b.handle_message("bob", &vec!["alice".to_string()], "first");
    b.handle_message("bob", &vec!["alice".to_string()], "second");
    assert_eq!(b.pop_mail("alice").unwrap(), "bob: first\n\r");
    assert_eq!(b.pop_mail("alice").unwrap(), "bob: second\n\r");
}

#[test]
fn a_duplicated_destination_delivers_once_per_occurrence() {
    let mut b = Broker::new();
    assert!(b.handle_new_peer("alice"));
    b.handle_message("bob", &vec!["alice".to_string(), "alice".to_string()], "hi");
    assert_eq!(b.pop_mail("alice").unwrap(), "bob: hi\n\r");
    assert_eq!(b.pop_mail("alice").unwrap(), "bob: hi\n\r");
    assert!(b.pop_mail("alice").is_none());
}

#[test]
fn a_second_admission_under_the_same_name_is_ignored() {
    let mut b = Broker::new();
    assert!(b.handle_new_peer("alice"));
    assert!(!b.handle_new_peer("alice"));
    assert!(b.is_online("alice"));
}

#[test]
fn a_name_is_online_exactly_between_admission_and_disconnect() {
    let mut b = Broker::new();
    assert!(!b.is_online("alice"));
    assert!(b.handle_new_peer("alice"));
    assert!(b.is_online("alice"));
    let leftover = b.handle_disconnect("alice").ok().unwrap();
    assert!(leftover.is_empty());
    assert!(!b.is_online("alice"));
}

#[test]
fn a_disconnect_notice_returns_the_undelivered_mail() {
    let mut b = Broker::new();
    assert!(b.handle_new_peer("alice"));
    b.handle_message("bob", &vec!["alice".to_string()], "in flight");
    let leftover = b.handle_disconnect("alice").ok().unwrap();
    assert_eq!(leftover, vec!["bob: in flight\n\r"]);
}

#[test]
fn a_disconnect_notice_for_an_offline_name_is_the_fatal_case() {
    let mut b = Broker::new();
    assert!(b.handle_disconnect("ghost").is_err());
}

#[test]
fn a_raw_line_reaches_the_named_peers_and_only_them() {
    let mut b = Broker::new();
    assert!(b.handle_new_peer("alice"));
    assert!(b.handle_new_peer("bob"));
    let m = chat_core::protocol::parse_message_line("alice, ghost: hello ").unwrap();
    b.handle_message("carol", &m.to, &m.body);
    assert_eq!(b.pop_mail("alice").unwrap(), "carol: hello\n\r");
    assert!(b.pop_mail("alice").is_none());
    assert!(b.pop_mail("bob").is_none());
    assert!(!b.is_online("ghost"));
}

#[test]
fn reconnecting_starts_with_a_fresh_mailbox() {
    let mut b = Broker::new();
    assert!(b.handle_new_peer("alice"));
    b.handle_message("bob", &vec!["alice".to_string()], "stale");
    assert!(b.handle_disconnect("alice").is_ok());
    assert!(b.handle_new_peer("alice"));
    assert!(b.pop_mail("alice").is_none());
}
