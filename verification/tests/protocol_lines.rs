use chat_core::protocol::format_delivery;
use chat_core::protocol::format_sys;
use chat_core::protocol::parse_message_line;
use chat_core::protocol::split_destinations;
use chat_core::protocol::welcome_message;

#[test]
fn delivery_lines_carry_sender_and_body() {
    assert_eq!(format_delivery("bob", "hi"), "bob: hi\n\r");
    assert_eq!(format_delivery("", ""), ": \n\r");
}

#[test]
fn sys_lines_carry_the_mark() {
    assert_eq!(format_sys("Please select Y or N"), "SYS:Please select Y or N\n\r");
    assert_eq!(welcome_message("carol"), "Welcome carol\n\r");
}

#[test]
fn destinations_split_on_commas_and_trim() {
    assert_eq!(split_destinations("a, b ,c"), vec!["a", "b", "c"]);
    assert_eq!(split_destinations("alice"), vec!["alice"]);
    assert_eq!(split_destinations("a,,b"), vec!["a", "", "b"]);
    assert_eq!(split_destinations(""), vec![""]);
}

#[test]
fn message_lines_split_at_the_first_colon() {
    let m = parse_message_line("alice:hello").unwrap();
    assert_eq!(m.to, vec!["alice"]);
    assert_eq!(m.body, "hello");

    let m = parse_message_line("a, b: hi there ").unwrap();
    assert_eq!(m.to, vec!["a", "b"]);
    assert_eq!(m.body, "hi there");

    let m = parse_message_line("bob:one:two").unwrap();
    assert_eq!(m.to, vec!["bob"]);
    assert_eq!(m.body, "one:two");
}

#[test]
fn lines_without_a_colon_are_ignored() {
    assert!(parse_message_line("no separator here").is_none());
    assert!(parse_message_line("").is_none());
}
