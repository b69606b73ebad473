use chat_core::client::ClientInput;
use chat_core::client::Command;
use chat_core::client::ServerLine;
use chat_core::client::classify_input;
use chat_core::client::classify_server_line;
use chat_core::client::parse_command;
use chat_core::client::sys_body;

#[test]
fn server_lines_without_a_colon_are_shown_plain() {
    assert!(matches!(classify_server_line("just text"), ServerLine::Plain));
}

#[test]
fn server_lines_with_one_colon_show_the_block() {
    match classify_server_line("bob: hi") {
        ServerLine::Block { block } => assert_eq!(block, "hi"),
        _ => panic!("expected the one-colon form"),
    }
}

#[test]
fn a_file_field_asks_for_a_transfer_decode() {
    assert!(matches!(classify_server_line("bob:file:whatever"), ServerLine::File));
}

#[test]
fn a_text_field_shows_the_message_with_its_source() {
    match classify_server_line("bob:text: hello ") {
        ServerLine::Text { from, msg } => {
            assert_eq!(from, "bob");
            assert_eq!(msg, "hello");
        }
        _ => panic!("expected the text form"),
    }
}

#[test]
fn an_unknown_field_is_reported() {
    assert!(matches!(classify_server_line("bob:image:x"), ServerLine::Other));
}

#[test]
fn console_lines_forward_unless_they_name_a_file() {
    assert!(matches!(classify_input("no colon"), ClientInput::Forward));
    assert!(matches!(classify_input("bob: hi"), ClientInput::Rejected));
    assert!(matches!(classify_input("bob:text:hi"), ClientInput::Forward));
    match classify_input("bob:file: notes.txt ") {
        ClientInput::SendFile { dest, path } => {
            assert_eq!(dest, "bob");
            assert_eq!(path, "notes.txt");
        }
        _ => panic!("expected the file form"),
    }
}

#[test]
fn the_sys_mark_is_recognised_and_stripped() {
    assert_eq!(sys_body("SYS:Welcome carol"), Some("Welcome carol".to_string()));
    assert_eq!(sys_body("SYS:"), Some(String::new()));
    assert_eq!(sys_body("plain line"), None);
    assert_eq!(sys_body("SYs:wrong case"), None);
}

#[test]
fn file_commands_split_destination_and_path_at_the_space() {
    match parse_command("file:bob notes.txt") {
        Command::SendFile { dest, path } => {
            assert_eq!(dest, "bob");
            assert_eq!(path, "notes.txt");
        }
        _ => panic!("expected a file command"),
    }
    assert!(matches!(parse_command("file:bob"), Command::BadFile));
}

#[test]
fn text_commands_split_destination_and_content_at_the_space() {
    match parse_command("text:bob hi there") {
        Command::SendText { dest, content } => {
            assert_eq!(dest, "bob");
            assert_eq!(content, "hi there");
        }
        _ => panic!("expected a text command"),
    }
    assert!(matches!(parse_command("text:bob"), Command::BadText));
}

#[test]
fn system_commands_strip_their_mark_whole() {
    match parse_command("system: all good ") {
        Command::SendInfo { info } => assert_eq!(info, "all good"),
        _ => panic!("expected a system command"),
    }
}

#[test]
fn anything_else_is_unrecognized() {
    assert!(matches!(parse_command("hello there"), Command::Unrecognized));
}
